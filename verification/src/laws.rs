//! Properties of the package operations taken together: what saving changes does to what can
//! be read back, and what a package without a workbook shows.
use crate::package::{
    entry_bytes, entry_index, entry_path_confined, package_sheet_paths, spec_entry_view,
    spec_extract_target,
};
use crate::backup::{
    file_name_or, is_backup_name, restore_dir, spec_backup_file_name, spec_backup_prefix,
    spec_check_restore,
};
use crate::error::ViewerError;
use crate::paths::{
    components, free_of, lemma_components_join, lemma_relative_has_no_root, lemma_join_keeps_base, lemma_file_name_join, lemma_file_name_plain,
    lemma_free_of_concat, spec_join,
};
use crate::save::{
    appended_part, first_add, first_non_textual, kept_part, kept_stored, kept_times, replacement, saved_entries, taken_up,
};
use crate::stdx::{decimal_digits, lemma_decimal_digits, str_lowercase};
use crate::text::{
    ends_with, ends_with_any, find_from, image_extensions, lemma_find_char_at, lemma_find_from, match_at,
    spec_is_image, spec_is_textual, text_extensions,
};
use crate::workbook::{
    assign_sheet_paths, lookup_last, sheets_of_tags, spec_attr, spec_parse_rels, spec_parse_sheets, spec_sheet_paths,
    tags_from,
};
use crate::hexdump::{lemma_dump_line_layout, lemma_dump_lines_at, spec_hex_dump};
use crate::zip_io::{
    has_entry_named, names_distinct, reads_back_as, stored_as, time_or_default, times_as, zip_parse,
    zip_stored, zip_times,
};
use vstd::prelude::*;
use vstd::string::*;

verus! {

/// `lookup_last` finds a key exactly where some pair has it.
pub proof fn lemma_lookup_last(pairs: Seq<(Seq<char>, Seq<char>)>, key: Seq<char>)
    ensures
        lookup_last(pairs, key) is Some <==> exists|i: int| 0 <= i < pairs.len() && #[trigger] pairs[i].0 == key,
    decreases pairs.len(),
{
    if pairs.len() > 0 {
        let d = pairs.drop_last();
        lemma_lookup_last(d, key);
        if pairs.last().0 != key {
            if exists|i: int| 0 <= i < pairs.len() && #[trigger] pairs[i].0 == key {
                let i = choose|i: int| 0 <= i < pairs.len() && #[trigger] pairs[i].0 == key;
                assert(d[i].0 == key);
            }
            if exists|i: int| 0 <= i < d.len() && #[trigger] d[i].0 == key {
                let i = choose|i: int| 0 <= i < d.len() && #[trigger] d[i].0 == key;
                assert(pairs[i].0 == key);
            }
        } else {
            assert(pairs[pairs.len() - 1].0 == key);
        }
    }
}

/// A path that some add has has a first add.
proof fn lemma_first_add(adds: Seq<(Seq<char>, Seq<char>)>, i: int)
    requires
        0 <= i < adds.len(),
    ensures
        exists|m: int| 0 <= m <= i && adds[m].0 == adds[i].0 && #[trigger] first_add(adds, m),
    decreases i,
{
    if !first_add(adds, i) {
        let j = choose|j: int| 0 <= j < i && adds[j].0 == adds[i].0;
        lemma_first_add(adds, j);
        let m = choose|m: int| 0 <= m <= j && adds[m].0 == adds[j].0 && #[trigger] first_add(adds, m);
        assert(0 <= m <= i && adds[m].0 == adds[i].0 && first_add(adds, m));
    } else {
        assert(first_add(adds, i));
    }
}

/// What the saved archive holds for the `i`-th existing entry, where it is kept.
pub open spec fn kept_data(
    es: Seq<(Seq<char>, u64, u64, Option<Seq<u8>>)>,
    adds: Seq<(Seq<char>, Seq<char>)>,
    updates: Seq<(Seq<char>, Seq<char>)>,
    i: int,
) -> Option<Seq<u8>> {
    match replacement(adds, updates, es[i].0) {
        Some(c) => Some(vstd::utf8::encode_utf8(c)),
        None => es[i].3,
    }
}

/// Each kept existing entry is among the written entries, with its data.
proof fn lemma_kept_has(
    es: Seq<(Seq<char>, u64, u64, Option<Seq<u8>>)>,
    adds: Seq<(Seq<char>, Seq<char>)>,
    updates: Seq<(Seq<char>, Seq<char>)>,
    deletes: Seq<Seq<char>>,
    k: nat,
    i: int,
)
    requires
        k <= es.len(),
        0 <= i < k,
        !deletes.contains(es[i].0),
    ensures
        exists|j: int| 0 <= j < kept_part(es, adds, updates, deletes, k).0.len()
            && #[trigger] kept_part(es, adds, updates, deletes, k).0[j] == (es[i].0, kept_data(es, adds, updates, i)),
    decreases k,
{
    let prev = kept_part(es, adds, updates, deletes, (k - 1) as nat).0;
    let cur = kept_part(es, adds, updates, deletes, k).0;
    if i == k - 1 {
        assert(cur[cur.len() - 1] == (es[i].0, kept_data(es, adds, updates, i)));
    } else {
        lemma_kept_has(es, adds, updates, deletes, (k - 1) as nat, i);
        let j = choose|j: int| 0 <= j < prev.len() && #[trigger] prev[j] == (es[i].0, kept_data(es, adds, updates, i));
        assert(cur[j] == prev[j]);
    }
}

/// A kept, unchanged, readable existing entry is written at the same position in the entries
/// and in their stored forms, where it keeps the stored form it had.
proof fn lemma_kept_stored_at(
    es: Seq<(Seq<char>, u64, u64, Option<Seq<u8>>)>,
    st: Seq<Option<(u16, u32, u64, Seq<u8>)>>,
    adds: Seq<(Seq<char>, Seq<char>)>,
    updates: Seq<(Seq<char>, Seq<char>)>,
    deletes: Seq<Seq<char>>,
    k: nat,
    i: int,
)
    requires
        k <= es.len(),
        0 <= i < k,
        !deletes.contains(es[i].0),
        replacement(adds, updates, es[i].0) is None,
        es[i].3 is Some,
    ensures
        kept_stored(es, st, adds, updates, deletes, k).len() == kept_part(es, adds, updates, deletes, k).0.len(),
        exists|j: int| 0 <= j < kept_part(es, adds, updates, deletes, k).0.len()
            && #[trigger] kept_part(es, adds, updates, deletes, k).0[j] == (es[i].0, es[i].3)
            && kept_stored(es, st, adds, updates, deletes, k)[j] == st[i],
    decreases k,
{
    let prev = kept_part(es, adds, updates, deletes, (k - 1) as nat).0;
    let cur = kept_part(es, adds, updates, deletes, k).0;
    let sprev = kept_stored(es, st, adds, updates, deletes, (k - 1) as nat);
    let scur = kept_stored(es, st, adds, updates, deletes, k);
    lemma_kept_stored_len(es, st, adds, updates, deletes, (k - 1) as nat);
    if i == k - 1 {
        assert(cur[cur.len() - 1] == (es[i].0, es[i].3));
        assert(scur[cur.len() - 1] == st[i]);
    } else {
        lemma_kept_stored_at(es, st, adds, updates, deletes, (k - 1) as nat, i);
        let j = choose|j: int| 0 <= j < prev.len() && #[trigger] prev[j] == (es[i].0, es[i].3)
            && sprev[j] == st[i];
        assert(cur[j] == prev[j]);
        assert(scur[j] == sprev[j]);
    }
}

/// The time written for an existing entry that is kept: its recorded time (or the default one)
/// where it is replaced, its recorded time where it is copied and readable.
pub open spec fn kept_time_of(
    es: Seq<(Seq<char>, u64, u64, Option<Seq<u8>>)>,
    tm: Seq<Option<(u16, u16)>>,
    adds: Seq<(Seq<char>, Seq<char>)>,
    updates: Seq<(Seq<char>, Seq<char>)>,
    i: int,
) -> Option<(u16, u16)> {
    if replacement(adds, updates, es[i].0) is Some {
        Some(time_or_default(tm[i]))
    } else if es[i].3 is Some {
        tm[i]
    } else {
        None
    }
}

/// A kept existing entry is written at the same position in the entries and in their times,
/// where it has the time `kept_time_of` gives.
proof fn lemma_kept_times_at(
    es: Seq<(Seq<char>, u64, u64, Option<Seq<u8>>)>,
    tm: Seq<Option<(u16, u16)>>,
    adds: Seq<(Seq<char>, Seq<char>)>,
    updates: Seq<(Seq<char>, Seq<char>)>,
    deletes: Seq<Seq<char>>,
    k: nat,
    i: int,
)
    requires
        k <= es.len(),
        0 <= i < k,
        !deletes.contains(es[i].0),
    ensures
        exists|j: int| 0 <= j < kept_part(es, adds, updates, deletes, k).0.len()
            && (#[trigger] kept_part(es, adds, updates, deletes, k).0[j]).0 == es[i].0
            && kept_times(es, tm, adds, updates, deletes, k)[j] == kept_time_of(es, tm, adds, updates, i),
    decreases k,
{
    let prev = kept_part(es, adds, updates, deletes, (k - 1) as nat).0;
    let cur = kept_part(es, adds, updates, deletes, k).0;
    let tprev = kept_times(es, tm, adds, updates, deletes, (k - 1) as nat);
    let tcur = kept_times(es, tm, adds, updates, deletes, k);
    lemma_kept_times_len(es, tm, adds, updates, deletes, (k - 1) as nat);
    if i == k - 1 {
        assert(cur[cur.len() - 1].0 == es[i].0);
        assert(tcur[cur.len() - 1] == kept_time_of(es, tm, adds, updates, i));
    } else {
        lemma_kept_times_at(es, tm, adds, updates, deletes, (k - 1) as nat, i);
        let j = choose|j: int| 0 <= j < prev.len() && (#[trigger] prev[j]).0 == es[i].0
            && tprev[j] == kept_time_of(es, tm, adds, updates, i);
        assert(cur[j] == prev[j]);
        assert(tcur[j] == tprev[j]);
    }
}

/// The times of the entries written for the existing entries are as many as those entries.
proof fn lemma_kept_times_len(
    es: Seq<(Seq<char>, u64, u64, Option<Seq<u8>>)>,
    tm: Seq<Option<(u16, u16)>>,
    adds: Seq<(Seq<char>, Seq<char>)>,
    updates: Seq<(Seq<char>, Seq<char>)>,
    deletes: Seq<Seq<char>>,
    k: nat,
)
    requires
        k <= es.len(),
    ensures
        kept_times(es, tm, adds, updates, deletes, k).len() == kept_part(es, adds, updates, deletes, k).0.len(),
    decreases k,
{
    if k > 0 {
        lemma_kept_times_len(es, tm, adds, updates, deletes, (k - 1) as nat);
    }
}

/// Saving, then reading back: an existing entry that is kept (not deleted) has the time
/// `kept_time_of` gives wherever that is known. So a changed entry keeps its recorded
/// modification time (1980-01-01 00:00:00 where it recorded none), and an untouched readable
/// entry keeps the time it recorded.
pub proof fn law_kept_entry_keeps_time(
    es: Seq<(Seq<char>, u64, u64, Option<Seq<u8>>)>,
    tm: Seq<Option<(u16, u16)>>,
    adds: Seq<(Seq<char>, Seq<char>)>,
    updates: Seq<(Seq<char>, Seq<char>)>,
    deletes: Seq<Seq<char>>,
    out: Seq<u8>,
    path: Seq<char>,
)
    requires
        names_distinct(es),
        reads_back_as(out, saved_entries(es, adds, updates, deletes)),
        names_distinct(zip_parse(out).unwrap()),
        times_as(out, kept_times(es, tm, adds, updates, deletes, es.len())),
        has_entry_named(es, path),
        !deletes.contains(path),
    ensures
        has_entry_named(zip_parse(out).unwrap(), path),
        kept_time_of(es, tm, adds, updates, entry_index(es, path)) is Some ==> zip_times(out)[entry_index(
            zip_parse(out).unwrap(),
            path,
        )] == kept_time_of(es, tm, adds, updates, entry_index(es, path)),
        replacement(adds, updates, path) is Some ==> zip_times(out)[entry_index(zip_parse(out).unwrap(), path)]
            == Some(time_or_default(tm[entry_index(es, path)])),
{
    let kp = kept_part(es, adds, updates, deletes, es.len()).0;
    let kt = kept_times(es, tm, adds, updates, deletes, es.len());
    let saved = saved_entries(es, adds, updates, deletes);
    let i = entry_index(es, path);
    lemma_kept_times_at(es, tm, adds, updates, deletes, es.len(), i);
    lemma_kept_times_len(es, tm, adds, updates, deletes, es.len());
    let j = choose|j: int| 0 <= j < kp.len() && (#[trigger] kp[j]).0 == es[i].0
        && kt[j] == kept_time_of(es, tm, adds, updates, i);
    assert(saved[j] == kp[j]);
    lemma_read_back_at(out, saved, j);
    if kt[j] is Some {
        assert(zip_times(out)[j] == kt[j]);
    }
}

/// The stored forms of the entries written for the existing entries are as many as those
/// entries.
proof fn lemma_kept_stored_len(
    es: Seq<(Seq<char>, u64, u64, Option<Seq<u8>>)>,
    st: Seq<Option<(u16, u32, u64, Seq<u8>)>>,
    adds: Seq<(Seq<char>, Seq<char>)>,
    updates: Seq<(Seq<char>, Seq<char>)>,
    deletes: Seq<Seq<char>>,
    k: nat,
)
    requires
        k <= es.len(),
    ensures
        kept_stored(es, st, adds, updates, deletes, k).len() == kept_part(es, adds, updates, deletes, k).0.len(),
    decreases k,
{
    if k > 0 {
        lemma_kept_stored_len(es, st, adds, updates, deletes, (k - 1) as nat);
    }
}

/// Every written entry for the existing entries is a kept existing entry.
proof fn lemma_kept_names(
    es: Seq<(Seq<char>, u64, u64, Option<Seq<u8>>)>,
    adds: Seq<(Seq<char>, Seq<char>)>,
    updates: Seq<(Seq<char>, Seq<char>)>,
    deletes: Seq<Seq<char>>,
    k: nat,
    j: int,
)
    requires
        k <= es.len(),
        0 <= j < kept_part(es, adds, updates, deletes, k).0.len(),
    ensures
        exists|i: int| 0 <= i < k && !deletes.contains(es[i].0)
            && #[trigger] es[i].0 == kept_part(es, adds, updates, deletes, k).0[j].0
            && kept_part(es, adds, updates, deletes, k).0[j].1 == kept_data(es, adds, updates, i),
    decreases k,
{
    let prev = kept_part(es, adds, updates, deletes, (k - 1) as nat).0;
    let cur = kept_part(es, adds, updates, deletes, k).0;
    if j < prev.len() {
        lemma_kept_names(es, adds, updates, deletes, (k - 1) as nat, j);
        assert(cur[j] == prev[j]);
    } else {
        assert(es[k - 1].0 == cur[j].0);
    }
}

/// Each new add path is among the appended entries, with the content of its last add.
proof fn lemma_appended_has(
    es: Seq<(Seq<char>, u64, u64, Option<Seq<u8>>)>,
    adds: Seq<(Seq<char>, Seq<char>)>,
    deletes: Seq<Seq<char>>,
    k: nat,
    m: int,
)
    requires
        k <= adds.len(),
        0 <= m < k,
        first_add(adds, m),
        !taken_up(es, deletes, adds[m].0),
    ensures
        exists|j: int| 0 <= j < appended_part(es, adds, deletes, k).0.len()
            && #[trigger] appended_part(es, adds, deletes, k).0[j] == (
            adds[m].0,
            Some(vstd::utf8::encode_utf8(lookup_last(adds, adds[m].0).unwrap())),
        ),
    decreases k,
{
    let prev = appended_part(es, adds, deletes, (k - 1) as nat).0;
    let cur = appended_part(es, adds, deletes, k).0;
    if m == k - 1 {
        assert(cur[cur.len() - 1].0 == adds[m].0);
    } else {
        lemma_appended_has(es, adds, deletes, (k - 1) as nat, m);
        let j = choose|j: int| 0 <= j < prev.len() && #[trigger] prev[j] == (
            adds[m].0,
            Some(vstd::utf8::encode_utf8(lookup_last(adds, adds[m].0).unwrap())),
        );
        assert(cur[j] == prev[j]);
    }
}

/// Every appended entry is a new add path, holding the content of its last add.
proof fn lemma_appended_names(
    es: Seq<(Seq<char>, u64, u64, Option<Seq<u8>>)>,
    adds: Seq<(Seq<char>, Seq<char>)>,
    deletes: Seq<Seq<char>>,
    k: nat,
    j: int,
)
    requires
        k <= adds.len(),
        0 <= j < appended_part(es, adds, deletes, k).0.len(),
    ensures
        exists|m: int| 0 <= m < k && !taken_up(es, deletes, adds[m].0)
            && #[trigger] adds[m].0 == appended_part(es, adds, deletes, k).0[j].0,
        appended_part(es, adds, deletes, k).0[j].1 == Some(
            vstd::utf8::encode_utf8(lookup_last(adds, appended_part(es, adds, deletes, k).0[j].0).unwrap()),
        ),
    decreases k,
{
    let prev = appended_part(es, adds, deletes, (k - 1) as nat).0;
    let cur = appended_part(es, adds, deletes, k).0;
    if j < prev.len() {
        lemma_appended_names(es, adds, deletes, (k - 1) as nat, j);
        assert(cur[j] == prev[j]);
    } else {
        assert(adds[k - 1].0 == cur[j].0);
    }
}

/// Where the written entries are found at position `j` of the archive read back, and names
/// there are distinct, the entry of that name is at `j`.
proof fn lemma_read_back_at(
    out: Seq<u8>,
    saved: Seq<(Seq<char>, Option<Seq<u8>>)>,
    j: int,
)
    requires
        reads_back_as(out, saved),
        names_distinct(zip_parse(out).unwrap()),
        0 <= j < saved.len(),
    ensures
        has_entry_named(zip_parse(out).unwrap(), saved[j].0),
        entry_index(zip_parse(out).unwrap(), saved[j].0) == j,
        saved[j].1 matches Some(d) ==> entry_bytes(zip_parse(out).unwrap(), saved[j].0) == Some(d),
{
    let ps = zip_parse(out).unwrap();
    assert(ps[j].0 == saved[j].0);
    assert(has_entry_named(ps, saved[j].0));
    let x = entry_index(ps, saved[j].0);
    assert(ps[x].0 == saved[j].0);
}

/// A name that no written entry has is not in the archive read back.
proof fn lemma_read_back_absent(out: Seq<u8>, saved: Seq<(Seq<char>, Option<Seq<u8>>)>, name: Seq<char>)
    requires
        reads_back_as(out, saved),
        forall|j: int| 0 <= j < saved.len() ==> #[trigger] saved[j].0 != name,
    ensures
        !has_entry_named(zip_parse(out).unwrap(), name),
{
    let ps = zip_parse(out).unwrap();
    if has_entry_named(ps, name) {
        let i = choose|i: int| 0 <= i < ps.len() && #[trigger] ps[i].0 == name;
        assert(saved[i].0 == name);
    }
}

/// Saving, then reading back: a path that was added, or an existing (and not deleted) entry
/// that was updated, holds the UTF-8 bytes of its new content (the last add of the path, else
/// its last update), and as a text entry it reads as exactly that content.
pub proof fn law_changed_entry_reads_back(
    es: Seq<(Seq<char>, u64, u64, Option<Seq<u8>>)>,
    adds: Seq<(Seq<char>, Seq<char>)>,
    updates: Seq<(Seq<char>, Seq<char>)>,
    deletes: Seq<Seq<char>>,
    out: Seq<u8>,
    path: Seq<char>,
)
    requires
        names_distinct(es),
        reads_back_as(out, saved_entries(es, adds, updates, deletes)),
        names_distinct(zip_parse(out).unwrap()),
        first_non_textual(adds + updates) is None,
        lookup_last(adds, path) is Some || (lookup_last(updates, path) is Some && taken_up(
            es,
            deletes,
            path,
        )),
    ensures
        has_entry_named(zip_parse(out).unwrap(), path),
        entry_bytes(zip_parse(out).unwrap(), path) == Some(
            vstd::utf8::encode_utf8(replacement(adds, updates, path).unwrap()),
        ),
        spec_is_textual(path, str_lowercase(path)),
        spec_entry_view(true, vstd::utf8::encode_utf8(replacement(adds, updates, path).unwrap()))
            == ("text"@, replacement(adds, updates, path).unwrap(), false),
{
    let kp = kept_part(es, adds, updates, deletes, es.len()).0;
    let ap = appended_part(es, adds, deletes, adds.len()).0;
    let saved = saved_entries(es, adds, updates, deletes);
    let c = replacement(adds, updates, path).unwrap();
    assert(saved == kp + ap);
    if taken_up(es, deletes, path) {
        let i = choose|i: int| 0 <= i < es.len() && #[trigger] es[i].0 == path;
        lemma_kept_has(es, adds, updates, deletes, es.len(), i);
        let j = choose|j: int| 0 <= j < kp.len() && #[trigger] kp[j] == (es[i].0, kept_data(es, adds, updates, i));
        assert(saved[j] == kp[j]);
        lemma_read_back_at(out, saved, j);
    } else {
        lemma_lookup_last(adds, path);
        let i = choose|i: int| 0 <= i < adds.len() && #[trigger] adds[i].0 == path;
        lemma_first_add(adds, i);
        let m = choose|m: int| 0 <= m <= i && adds[m].0 == adds[i].0 && #[trigger] first_add(adds, m);
        lemma_appended_has(es, adds, deletes, adds.len(), m);
        let j = choose|j: int| 0 <= j < ap.len() && #[trigger] ap[j] == (
            adds[m].0,
            Some(vstd::utf8::encode_utf8(lookup_last(adds, adds[m].0).unwrap())),
        );
        assert(saved[kp.len() + j] == ap[j]);
        lemma_read_back_at(out, saved, kp.len() + j);
    }
    if lookup_last(adds, path) is Some {
        lemma_lookup_last(adds, path);
        let i = choose|i: int| 0 <= i < adds.len() && #[trigger] adds[i].0 == path;
        assert((adds + updates)[i].0 == path);
    } else {
        lemma_lookup_last(updates, path);
        let i = choose|i: int| 0 <= i < updates.len() && #[trigger] updates[i].0 == path;
        assert((adds + updates)[adds.len() + i].0 == path);
    }
    lemma_all_textual(adds + updates, path);
    vstd::utf8::encode_utf8_decode_utf8(c);
    vstd::utf8::encode_utf8_valid_utf8(c);
}

/// Every change passes where none is refused as not text.
proof fn lemma_all_textual(changes: Seq<(Seq<char>, Seq<char>)>, path: Seq<char>)
    requires
        first_non_textual(changes) is None,
        exists|i: int| 0 <= i < changes.len() && #[trigger] changes[i].0 == path,
    ensures
        spec_is_textual(path, str_lowercase(path)),
    decreases changes.len(),
{
    if changes[0].0 != path {
        let i = choose|i: int| 0 <= i < changes.len() && #[trigger] changes[i].0 == path;
        assert(changes.drop_first()[i - 1].0 == path);
        lemma_all_textual(changes.drop_first(), path);
    }
}

} // verus!

verus! {

/// Saving, then reading back: a deleted entry whose path is not also added is gone (reading it
/// finds no entry).
pub proof fn law_deleted_entry_is_gone(
    es: Seq<(Seq<char>, u64, u64, Option<Seq<u8>>)>,
    adds: Seq<(Seq<char>, Seq<char>)>,
    updates: Seq<(Seq<char>, Seq<char>)>,
    deletes: Seq<Seq<char>>,
    out: Seq<u8>,
    path: Seq<char>,
)
    requires
        reads_back_as(out, saved_entries(es, adds, updates, deletes)),
        deletes.contains(path),
        lookup_last(adds, path) is None,
    ensures
        !has_entry_named(zip_parse(out).unwrap(), path),
{
    let kp = kept_part(es, adds, updates, deletes, es.len()).0;
    let ap = appended_part(es, adds, deletes, adds.len()).0;
    let saved = saved_entries(es, adds, updates, deletes);
    lemma_lookup_last(adds, path);
    assert forall|j: int| 0 <= j < saved.len() implies #[trigger] saved[j].0 != path by {
        if j < kp.len() {
            lemma_kept_names(es, adds, updates, deletes, es.len(), j);
            assert(saved[j] == kp[j]);
        } else {
            lemma_appended_names(es, adds, deletes, adds.len(), j - kp.len());
            assert(saved[j] == ap[j - kp.len()]);
        }
    }
    lemma_read_back_absent(out, saved, path);
}

/// Saving, then reading back: an entry that is neither deleted nor changed is still there, and
/// where it could be read before, it reads the same (its compressed data are copied as they
/// were). Where it could be read, it is stored as it was (`st`, the stored forms of the
/// existing archive): same compression method, CRC-32 and compressed bytes.
pub proof fn law_untouched_entry_is_kept(
    es: Seq<(Seq<char>, u64, u64, Option<Seq<u8>>)>,
    st: Seq<Option<(u16, u32, u64, Seq<u8>)>>,
    adds: Seq<(Seq<char>, Seq<char>)>,
    updates: Seq<(Seq<char>, Seq<char>)>,
    deletes: Seq<Seq<char>>,
    out: Seq<u8>,
    path: Seq<char>,
)
    requires
        names_distinct(es),
        reads_back_as(out, saved_entries(es, adds, updates, deletes)),
        names_distinct(zip_parse(out).unwrap()),
        stored_as(out, kept_stored(es, st, adds, updates, deletes, es.len())),
        has_entry_named(es, path),
        !deletes.contains(path),
        replacement(adds, updates, path) is None,
    ensures
        has_entry_named(zip_parse(out).unwrap(), path),
        entry_bytes(es, path) is Some ==> entry_bytes(zip_parse(out).unwrap(), path) == entry_bytes(
            es,
            path,
        ),
        entry_bytes(es, path) is Some && st[entry_index(es, path)] is Some
            ==> zip_stored(out)[entry_index(zip_parse(out).unwrap(), path)] == st[entry_index(es, path)],
{
    let kp = kept_part(es, adds, updates, deletes, es.len()).0;
    let saved = saved_entries(es, adds, updates, deletes);
    let i = entry_index(es, path);
    lemma_kept_has(es, adds, updates, deletes, es.len(), i);
    let j = choose|j: int| 0 <= j < kp.len() && #[trigger] kp[j] == (es[i].0, kept_data(es, adds, updates, i));
    assert(saved[j] == kp[j]);
    lemma_read_back_at(out, saved, j);
    if es[i].3 is Some && st[i] is Some {
        lemma_kept_stored_at(es, st, adds, updates, deletes, es.len(), i);
        let j2 = choose|j2: int| 0 <= j2 < kp.len() && #[trigger] kp[j2] == (es[i].0, es[i].3)
            && kept_stored(es, st, adds, updates, deletes, es.len())[j2] == st[i];
        assert(saved[j2] == kp[j2]);
        lemma_read_back_at(out, saved, j2);
        let ks = kept_stored(es, st, adds, updates, deletes, es.len());
        assert(ks[j2] is Some);
    }
}

/// The entries written for the existing entries when nothing is changed: each as it was.
proof fn lemma_kept_unchanged(
    es: Seq<(Seq<char>, u64, u64, Option<Seq<u8>>)>,
    k: nat,
)
    requires
        k <= es.len(),
    ensures
        kept_part(es, Seq::empty(), Seq::empty(), Seq::empty(), k).0 == es.take(k as int).map_values(
            |e: (Seq<char>, u64, u64, Option<Seq<u8>>)| (e.0, e.3),
        ),
    decreases k,
{
    let none: Seq<(Seq<char>, Seq<char>)> = Seq::empty();
    let nodel: Seq<Seq<char>> = Seq::empty();
    if k > 0 {
        lemma_kept_unchanged(es, (k - 1) as nat);
        assert(!nodel.contains(es[k - 1].0));
        assert(lookup_last(none, es[k - 1].0) is None);
        assert(es.take(k as int).map_values(|e: (Seq<char>, u64, u64, Option<Seq<u8>>)| (e.0, e.3))
            =~= es.take(k - 1).map_values(|e: (Seq<char>, u64, u64, Option<Seq<u8>>)| (e.0, e.3)).push(
            (es[k - 1].0, es[k - 1].3),
        ));
    } else {
        assert(es.take(0).map_values(|e: (Seq<char>, u64, u64, Option<Seq<u8>>)| (e.0, e.3))
            =~= Seq::<(Seq<char>, Option<Seq<u8>>)>::empty());
    }
}

/// Saving with no changes rewrites the package entry for entry: the same names in the same
/// order, and every entry that could be read reads the same.
pub proof fn law_save_without_changes_keeps_package(
    es: Seq<(Seq<char>, u64, u64, Option<Seq<u8>>)>,
    out: Seq<u8>,
)
    requires
        reads_back_as(out, saved_entries(es, Seq::empty(), Seq::empty(), Seq::empty())),
    ensures
        zip_parse(out).unwrap().len() == es.len(),
        forall|i: int| 0 <= i < es.len() ==> (#[trigger] zip_parse(out).unwrap()[i]).0 == es[i].0,
        forall|i: int| 0 <= i < es.len() && (#[trigger] es[i]).3 is Some ==> zip_parse(out).unwrap()[i].3
            == es[i].3,
{
    let none: Seq<(Seq<char>, Seq<char>)> = Seq::empty();
    let nodel: Seq<Seq<char>> = Seq::empty();
    lemma_kept_unchanged(es, es.len());
    assert(es.take(es.len() as int) =~= es);
    assert(appended_part(es, none, nodel, 0).0 =~= Seq::<(Seq<char>, Option<Seq<u8>>)>::empty());
    let saved = saved_entries(es, none, none, nodel);
    assert(saved =~= es.map_values(|e: (Seq<char>, u64, u64, Option<Seq<u8>>)| (e.0, e.3)));
    let ps = zip_parse(out).unwrap();
    assert forall|i: int| 0 <= i < es.len() implies (#[trigger] ps[i]).0 == es[i].0 by {
        assert(saved[i] == (es[i].0, es[i].3));
    }
    assert forall|i: int| 0 <= i < es.len() && (#[trigger] es[i]).3 is Some implies ps[i].3 == es[i].3 by {
        assert(saved[i] == (es[i].0, es[i].3));
    }
}

/// A package without a readable `xl/workbook.xml` (a document or a presentation) gives no
/// entry a sheet name.
pub proof fn law_no_workbook_no_sheet_names(es: Seq<(Seq<char>, u64, u64, Option<Seq<u8>>)>)
    requires
        crate::package::entry_text(es, "xl/workbook.xml"@) is None,
    ensures
        forall|name: Seq<char>| #[trigger] lookup_last(package_sheet_paths(es), name) is None,
{
    assert(package_sheet_paths(es) =~= Seq::<(Seq<char>, Seq<char>)>::empty());
}

/// Extraction never leaves the chosen directory: an entry path that is accepted is relative
/// and has no `..` or root component, and the destination is that path under `dest_dir`,
/// whose components begin with those of `dest_dir`.
pub proof fn law_extract_stays_under_dest(entry_path: Seq<char>, dest_dir: Seq<char>)
    ensures
        spec_extract_target(entry_path, dest_dir) matches Ok(d) ==> {
            &&& entry_path_confined(entry_path)
            &&& d == spec_join(dest_dir, entry_path)
            &&& components(dest_dir).len() <= components(d).len()
            &&& components(d).take(components(dest_dir).len() as int) == components(dest_dir)
        },
{
}

/// Once a new backup `keep` is made, the backups to remove are exactly the other listed ones:
/// `keep` is not among them, and every other listed backup is.
pub proof fn law_only_newest_backup_remains(listed: Seq<(Seq<char>, Seq<char>, u64, u64)>, keep: Seq<char>)
    ensures
        ({
            let paths = listed.map_values(|b: (Seq<char>, Seq<char>, u64, u64)| b.0);
            let stale = paths.filter(|p: Seq<char>| p != keep);
            &&& !stale.contains(keep)
            &&& forall|i: int| 0 <= i < listed.len() && (#[trigger] listed[i]).0 != keep
                ==> stale.contains(listed[i].0)
        }),
{
    let paths = listed.map_values(|b: (Seq<char>, Seq<char>, u64, u64)| b.0);
    let pred = |p: Seq<char>| p != keep;
    let stale = paths.filter(pred);
    if stale.contains(keep) {
        let j = choose|j: int| 0 <= j < stale.len() && stale[j] == keep;
        paths.lemma_filter_pred(pred, j);
    }
    assert forall|i: int| 0 <= i < listed.len() && (#[trigger] listed[i]).0 != keep
        implies stale.contains(listed[i].0) by {
        assert(paths[i] == listed[i].0);
        paths.lemma_filter_contains(pred, i);
    }
}

/// A file beside the package file whose name is that of a backup of it (a name without `/`)
/// is accepted for restoring; "beside" means in a directory written as any path with the
/// components of the file's own directory.
pub proof fn law_backup_beside_file_is_restorable(file_path: Seq<char>, dir: Seq<char>, name: Seq<char>)
    requires
        components(dir) == restore_dir(file_path),
        is_backup_name(name, spec_backup_prefix(file_path)),
        free_of(name, '/'),
    ensures
        spec_check_restore(file_path, spec_join(dir, name)) == Ok::<(), ViewerError>(()),
{
    let prefix = spec_backup_prefix(file_path);
    reveal_strlit(".ooxml-backup-");
    assert(name.len() >= prefix.len() >= 15);
    assert(name != seq!['.']) by {
        assert(seq!['.'].len() == 1);
    }
    assert(name != seq!['.', '.']) by {
        assert(seq!['.', '.'].len() == 2);
    }
    lemma_components_join(dir, name);
    lemma_file_name_join(dir, name);
    let c = components(spec_join(dir, name));
    assert(c.last() == name);
    assert(name != seq!['/']) by {
        assert(seq!['/'].len() == 1);
    }
    assert(c.drop_last() =~= components(dir));
}

/// The backup that saving makes beside the package file (named by `spec_backup_file_name`)
/// can be restored over it.
pub proof fn law_new_backup_is_restorable(file_path: Seq<char>, dir: Seq<char>, pid: u32, nanos: u128)
    requires
        components(dir) == restore_dir(file_path),
    ensures
        spec_check_restore(file_path, spec_join(dir, spec_backup_file_name(file_path, pid, nanos)))
            == Ok::<(), ViewerError>(()),
{
    reveal_strlit(".bak");
    reveal_strlit(".ooxml-backup-");
    reveal_strlit("ooxml");
    let fname = file_name_or(file_path, "ooxml"@);
    let prefix = spec_backup_prefix(file_path);
    let a = decimal_digits(pid as nat);
    let b = decimal_digits(nanos as nat);
    let name = spec_backup_file_name(file_path, pid, nanos);
    lemma_file_name_plain(file_path);
    lemma_decimal_digits(pid as nat);
    lemma_decimal_digits(nanos as nat);
    assert(free_of(a, '/')) by {
        assert forall|k: int| 0 <= k < a.len() implies a[k] != '/' by {
            assert('0' <= a[k] <= '9');
        }
    }
    assert(free_of(b, '/')) by {
        assert forall|k: int| 0 <= k < b.len() implies b[k] != '/' by {
            assert('0' <= b[k] <= '9');
        }
    }
    assert(free_of(fname, '/'));
    lemma_free_of_concat(seq!['.'], fname, '/');
    lemma_free_of_concat(seq!['.'] + fname, ".ooxml-backup-"@, '/');
    lemma_free_of_concat(prefix, a, '/');
    lemma_free_of_concat(prefix + a, seq!['-'], '/');
    lemma_free_of_concat(prefix + a + seq!['-'], b, '/');
    lemma_free_of_concat(prefix + a + seq!['-'] + b, ".bak"@, '/');
    assert(name.subrange(0, prefix.len() as int) =~= prefix);
    assert(name.subrange(name.len() - 4, name.len() as int) =~= ".bak"@);
    law_backup_beside_file_is_restorable(file_path, dir, name);
}

/// Two suffixes of one sequence, each at least three long, end with the same three
/// characters.
proof fn lemma_suffixes_agree(s: Seq<char>, x: Seq<char>, y: Seq<char>)
    requires
        ends_with(s, x),
        ends_with(s, y),
        x.len() >= 3,
        y.len() >= 3,
    ensures
        x[x.len() - 1] == y[y.len() - 1],
        x[x.len() - 2] == y[y.len() - 2],
        x[x.len() - 3] == y[y.len() - 3],
{
    let n = s.len();
    assert(s.subrange(n - x.len(), n as int)[x.len() - 1] == s[n - 1]);
    assert(s.subrange(n - x.len(), n as int)[x.len() - 2] == s[n - 2]);
    assert(s.subrange(n - x.len(), n as int)[x.len() - 3] == s[n - 3]);
    assert(s.subrange(n - y.len(), n as int)[y.len() - 1] == s[n - 1]);
    assert(s.subrange(n - y.len(), n as int)[y.len() - 2] == s[n - 2]);
    assert(s.subrange(n - y.len(), n as int)[y.len() - 3] == s[n - 3]);
}

/// No entry is both a previewable image and an editable text file (`.svg` is text, not an
/// image): no image extension and text extension can end the same lower-cased path.
pub proof fn law_image_is_never_text(path: Seq<char>, lowered: Seq<char>)
    ensures
        !(spec_is_image(lowered) && spec_is_textual(path, lowered)),
{
    reveal_strlit(".xml");
    reveal_strlit(".rels");
    reveal_strlit(".json");
    reveal_strlit(".txt");
    reveal_strlit(".csv");
    reveal_strlit(".tsv");
    reveal_strlit(".js");
    reveal_strlit(".css");
    reveal_strlit(".html");
    reveal_strlit(".htm");
    reveal_strlit(".svg");
    reveal_strlit(".md");
    reveal_strlit(".properties");
    reveal_strlit(".dtd");
    reveal_strlit(".xsd");
    reveal_strlit(".xsl");
    reveal_strlit(".yml");
    reveal_strlit(".yaml");
    reveal_strlit(".rng");
    reveal_strlit(".png");
    reveal_strlit(".jpg");
    reveal_strlit(".jpeg");
    reveal_strlit(".gif");
    reveal_strlit(".bmp");
    reveal_strlit(".webp");
    reveal_strlit(".ico");
    reveal_strlit(".tif");
    reveal_strlit(".tiff");
    if spec_is_image(lowered) && spec_is_textual(path, lowered) {
        let i = choose|i: int| 0 <= i < image_extensions().len() && ends_with(lowered, #[trigger] image_extensions()[i]);
        let j = choose|j: int| 0 <= j < text_extensions().len() && ends_with(lowered, #[trigger] text_extensions()[j]);
        let x = image_extensions()[i];
        let y = text_extensions()[j];
        assert(x.len() >= 3 && y.len() >= 3);
        lemma_suffixes_agree(lowered, x, y);
        assert(false);
    }
}

/// A path is a previewable image exactly when its lower-cased form ends with one of `.png`,
/// `.jpg`, `.jpeg`, `.gif`, `.bmp`, `.webp`, `.ico`, `.tif`, `.tiff`.
pub proof fn law_image_extensions(lowered: Seq<char>)
    ensures
        spec_is_image(lowered) <==> (ends_with(lowered, ".png"@)
            || ends_with(lowered, ".jpg"@)
            || ends_with(lowered, ".jpeg"@)
            || ends_with(lowered, ".gif"@)
            || ends_with(lowered, ".bmp"@)
            || ends_with(lowered, ".webp"@)
            || ends_with(lowered, ".ico"@)
            || ends_with(lowered, ".tif"@)
            || ends_with(lowered, ".tiff"@)),
{
    reveal_strlit(".png");
    reveal_strlit(".jpg");
    reveal_strlit(".jpeg");
    reveal_strlit(".gif");
    reveal_strlit(".bmp");
    reveal_strlit(".webp");
    reveal_strlit(".ico");
    reveal_strlit(".tif");
    reveal_strlit(".tiff");
    let exts = image_extensions();
    if spec_is_image(lowered) {
        let i = choose|i: int| 0 <= i < exts.len() && ends_with(lowered, #[trigger] exts[i]);
        assert(0 <= i < 9);
    }
    assert(exts[0] == ".png"@ && exts[1] == ".jpg"@ && exts[2] == ".jpeg"@ && exts[3] == ".gif"@
        && exts[4] == ".bmp"@ && exts[5] == ".webp"@ && exts[6] == ".ico"@ && exts[7] == ".tif"@
        && exts[8] == ".tiff"@);
}

/// A path is an editable text entry exactly when it does not end with `/` and its lower-cased
/// form ends with one of `.xml`, `.rels`, `.json`, `.txt`, `.csv`, `.tsv`, `.js`, `.css`,
/// `.html`, `.htm`, `.svg`, `.md`, `.properties`, `.dtd`, `.xsd`, `.xsl`, `.yml`, `.yaml`,
/// `.rng`.
pub proof fn law_text_extensions(path: Seq<char>, lowered: Seq<char>)
    ensures
        spec_is_textual(path, lowered) <==> !ends_with(path, seq!['/']) && (ends_with(lowered, ".xml"@)
            || ends_with(lowered, ".rels"@)
            || ends_with(lowered, ".json"@)
            || ends_with(lowered, ".txt"@)
            || ends_with(lowered, ".csv"@)
            || ends_with(lowered, ".tsv"@)
            || ends_with(lowered, ".js"@)
            || ends_with(lowered, ".css"@)
            || ends_with(lowered, ".html"@)
            || ends_with(lowered, ".htm"@)
            || ends_with(lowered, ".svg"@)
            || ends_with(lowered, ".md"@)
            || ends_with(lowered, ".properties"@)
            || ends_with(lowered, ".dtd"@)
            || ends_with(lowered, ".xsd"@)
            || ends_with(lowered, ".xsl"@)
            || ends_with(lowered, ".yml"@)
            || ends_with(lowered, ".yaml"@)
            || ends_with(lowered, ".rng"@)),
{
    reveal_strlit(".xml");
    reveal_strlit(".rels");
    reveal_strlit(".json");
    reveal_strlit(".txt");
    reveal_strlit(".csv");
    reveal_strlit(".tsv");
    reveal_strlit(".js");
    reveal_strlit(".css");
    reveal_strlit(".html");
    reveal_strlit(".htm");
    reveal_strlit(".svg");
    reveal_strlit(".md");
    reveal_strlit(".properties");
    reveal_strlit(".dtd");
    reveal_strlit(".xsd");
    reveal_strlit(".xsl");
    reveal_strlit(".yml");
    reveal_strlit(".yaml");
    reveal_strlit(".rng");
    let exts = text_extensions();
    if ends_with_any(lowered, exts) {
        let i = choose|i: int| 0 <= i < exts.len() && ends_with(lowered, #[trigger] exts[i]);
        assert(0 <= i < 19);
    }
    assert(exts[0] == ".xml"@ && exts[1] == ".rels"@ && exts[2] == ".json"@ && exts[3] == ".txt"@
        && exts[4] == ".csv"@ && exts[5] == ".tsv"@ && exts[6] == ".js"@ && exts[7] == ".css"@
        && exts[8] == ".html"@ && exts[9] == ".htm"@ && exts[10] == ".svg"@ && exts[11] == ".md"@
        && exts[12] == ".properties"@ && exts[13] == ".dtd"@ && exts[14] == ".xsd"@
        && exts[15] == ".xsl"@ && exts[16] == ".yml"@ && exts[17] == ".yaml"@ && exts[18] == ".rng"@);
}

/// The text that opens the value of an attribute `name`: `name="`.
pub open spec fn opening(name: Seq<char>) -> Seq<char> {
    name + seq!['=', '"']
}

/// The value of an attribute is all the text between the first `name="` and the next `"`,
/// spaces and any other character but `"` included: in `pre`, then `name="`, then `value`,
/// then `"` and anything, where `name="` does not start inside `pre`, the value of `name` is
/// `value`.
pub proof fn law_attr_value(pre: Seq<char>, name: Seq<char>, value: Seq<char>, post: Seq<char>)
    requires
        forall|k: int| 0 <= k < pre.len() ==> #[trigger] (pre + opening(name)).subrange(k, k + opening(name).len())
            != opening(name),
        forall|k: int| 0 <= k < value.len() ==> value[k] != '"',
    ensures
        spec_attr(pre + opening(name) + value + seq!['"'] + post, name) == Some(value),
{
    let pat = opening(name);
    let xml = pre + pat + value + seq!['"'] + post;
    lemma_find_from(xml, pat, 0);
    assert(xml.subrange(pre.len() as int, (pre.len() + pat.len()) as int) =~= pat);
    assert(match_at(xml, pat, pre.len() as int));
    assert forall|k: int| 0 <= k < pre.len() implies !match_at(xml, pat, k) by {
        assert(xml.subrange(k, k + pat.len()) =~= (pre + pat).subrange(k, k + pat.len()));
    }
    let idx = find_from(xml, pat, 0).unwrap();
    assert(idx == pre.len());
    let rest = xml.skip(idx + pat.len());
    assert(rest =~= value + seq!['"'] + post);
    lemma_find_char_at(rest, '"', 0, value.len() as int);
    assert(rest.take(value.len() as int) =~= value);
}

/// Extraction refuses a path ending with `/` as a directory, and otherwise refuses a path as
/// invalid exactly where it is absolute or has a `..` component: any other relative path
/// (one with a hidden `.name` component, say) is never refused: it is extracted to the path
/// pushed onto `dest_dir`, which always lies under `dest_dir`.
pub proof fn law_extract_refusals(entry_path: Seq<char>, dest_dir: Seq<char>)
    ensures
        ends_with(entry_path, seq!['/']) ==> (spec_extract_target(entry_path, dest_dir) matches Err(
            ViewerError::CannotExtractDirectory,
        )),
        !ends_with(entry_path, seq!['/']) ==> ((spec_extract_target(entry_path, dest_dir) matches Err(
            ViewerError::InvalidEntryPath,
        )) <==> ((entry_path.len() > 0 && entry_path[0] == '/') || components(entry_path).contains(
            seq!['.', '.'],
        ))),
        !ends_with(entry_path, seq!['/']) && !(entry_path.len() > 0 && entry_path[0] == '/')
            && !components(entry_path).contains(seq!['.', '.']) ==> (spec_extract_target(entry_path, dest_dir)
            matches Ok(dest) && dest == spec_join(dest_dir, entry_path)),
{
    if !(entry_path.len() > 0 && entry_path[0] == '/') {
        lemma_relative_has_no_root(entry_path);
        lemma_join_keeps_base(dest_dir, entry_path);
    }
}

/// The layout of the hexadecimal preview: the line for bytes `16i..16i+16` starts at `78 * i`
/// (every line before it is full); byte `16i + k` is shown as two lower-case hexadecimal
/// digits at `78i + 10 + 3k` and `78i + 11 + 3k`, and in the text column at `78i + 60 + k`
/// as itself where it is a graphic ASCII character or a space (0x20..=0x7e), else as `.`.
/// (Offsets are eight digits wide up to 4 GiB of shown bytes.)
pub proof fn law_hex_dump_layout(data: Seq<u8>, max_bytes: nat, i: int, k: int)
    requires
        0 <= i,
        0 <= k < 16,
        16 * i + k < data.len(),
        16 * i + k < max_bytes,
        (if data.len() <= max_bytes { data.len() } else { max_bytes }) <= 0x1_0000_0000,
    ensures
        ({
            let out = spec_hex_dump(data, max_bytes).0;
            let b = data[16 * i + k];
            let hi = b as int / 16;
            let lo = b as int % 16;
            &&& out[78 * i + 60 + k] == (if 0x20 <= b <= 0x7e { b as char } else { '.' })
            &&& out[78 * i + 10 + 3 * k] == (if hi < 10 { (hi + 48) as char } else { (hi + 87) as char })
            &&& out[78 * i + 11 + 3 * k] == (if lo < 10 { (lo + 48) as char } else { (lo + 87) as char })
        }),
{
    let shown = if data.len() <= max_bytes { data } else { data.take(max_bytes as int) };
    let m = if shown.len() - 16 * i < 16 { shown.len() - 16 * i } else { 16 };
    let chunk = shown.skip(16 * i).take(m);
    assert(chunk[k] == data[16 * i + k]);
    lemma_dump_lines_at(shown, 0, i, 60 + k);
    lemma_dump_lines_at(shown, 0, i, 10 + 3 * k);
    lemma_dump_lines_at(shown, 0, i, 11 + 3 * k);
    lemma_dump_line_layout((16 * i) as nat, chunk);
}

/// Each sheet read from a list of tags has for its name the `name` attribute of one of them.
proof fn lemma_sheet_names_from_tags(tags: Seq<Seq<char>>)
    ensures
        forall|j: int| 0 <= j < sheets_of_tags(tags).len() ==> exists|t: int| 0 <= t < tags.len()
            && spec_attr(#[trigger] tags[t], "name"@) == Some((#[trigger] sheets_of_tags(tags)[j]).0),
    decreases tags.len(),
{
    if tags.len() > 0 {
        let front = tags.drop_last();
        lemma_sheet_names_from_tags(front);
        let rest = sheets_of_tags(front);
        let cur = sheets_of_tags(tags);
        assert forall|j: int| 0 <= j < cur.len() implies exists|t: int| 0 <= t < tags.len()
            && spec_attr(#[trigger] tags[t], "name"@) == Some((#[trigger] cur[j]).0) by {
            if j < rest.len() {
                assert(cur[j] == rest[j]);
                let t = choose|t: int| 0 <= t < front.len() && spec_attr(#[trigger] front[t], "name"@) == Some(rest[j].0);
                assert(tags[t] == front[t]);
            } else {
                assert(tags[tags.len() - 1] == tags.last());
            }
        }
    }
}

/// The sheet paths of the first `k` sheets keep the sheets' names, in order.
proof fn lemma_assigned_names(sheets: Seq<(Seq<char>, Seq<char>)>, rels: Seq<(Seq<char>, Seq<char>)>, k: nat)
    requires
        k <= sheets.len(),
    ensures
        assign_sheet_paths(sheets, rels, k).0.len() == k,
        forall|j: int| 0 <= j < k ==> (#[trigger] assign_sheet_paths(sheets, rels, k).0[j]).1 == sheets[j].0,
    decreases k,
{
    if k > 0 {
        lemma_assigned_names(sheets, rels, (k - 1) as nat);
        let prev = assign_sheet_paths(sheets, rels, (k - 1) as nat).0;
        let cur = assign_sheet_paths(sheets, rels, k).0;
        assert forall|j: int| 0 <= j < k implies (#[trigger] cur[j]).1 == sheets[j].0 by {
            if j < k - 1 {
                assert(cur[j] == prev[j]);
            }
        }
    }
}

/// The display name given to a worksheet is exactly the `name` attribute of one of the
/// `<sheet` tags of the workbook (see `law_attr_value` for what an attribute's value is), and
/// each sheet the workbook lists gives one worksheet path, with its name.
pub proof fn law_sheet_names_are_name_attributes(wb: Seq<char>, rels: Option<Seq<char>>)
    ensures
        spec_sheet_paths(Some(wb), rels).len() == spec_parse_sheets(wb).len(),
        forall|j: int| 0 <= j < spec_sheet_paths(Some(wb), rels).len() ==> exists|t: int|
            0 <= t < tags_from(wb, "<sheet"@, 0).len() && spec_attr(#[trigger] tags_from(wb, "<sheet"@, 0)[t], "name"@)
                == Some((#[trigger] spec_sheet_paths(Some(wb), rels)[j]).1),
{
    let tags = tags_from(wb, "<sheet"@, 0);
    let sheets = spec_parse_sheets(wb);
    let r = match rels {
        Some(x) => spec_parse_rels(x),
        None => Seq::empty(),
    };
    lemma_sheet_names_from_tags(tags);
    lemma_assigned_names(sheets, r, sheets.len());
    let out = spec_sheet_paths(Some(wb), rels);
    assert forall|j: int| 0 <= j < out.len() implies exists|t: int|
        0 <= t < tags.len() && spec_attr(#[trigger] tags[t], "name"@) == Some((#[trigger] out[j]).1) by {
        assert(out[j].1 == sheets[j].0);
        let t = choose|t: int| 0 <= t < tags.len() && spec_attr(#[trigger] tags[t], "name"@) == Some(sheets[j].0);
    }
}

} // verus!
