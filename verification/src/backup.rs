//! Backups of a package file: how they are named, which files are backups of a given
//! package, their order (newest first), and which backup may be restored.
use crate::error::ViewerError;
use crate::paths::{
    chars_eq, components, components_eq, file_name, parent_components, path_components,
    path_parent_components, spec_file_name, vec_views,
};
use crate::stdx::{chars_of, decimal_digits, push_all, push_decimal, push_str, str_eq, string_from_chars};
use crate::text::{chars_end_with, chars_start_with, ends_with, starts_with};
use crate::types::BackupInfo;
use vstd::prelude::*;

verus! {

/// The final component of a path, or `fallback` where it has none.
pub open spec fn file_name_or(p: Seq<char>, fallback: Seq<char>) -> Seq<char> {
    match spec_file_name(p) {
        Some(n) => n,
        None => fallback,
    }
}

/// The start of the names of the backups of a package file: `.`, the file's name (`ooxml`
/// where the path has none), and `.ooxml-backup-`.
pub open spec fn spec_backup_prefix(file_path: Seq<char>) -> Seq<char> {
    seq!['.'] + file_name_or(file_path, "ooxml"@) + ".ooxml-backup-"@
}

fn push_name_or_ooxml(out: &mut Vec<char>, file_path: &str)
    ensures
        final(out)@ == old(out)@ + file_name_or(file_path@, "ooxml"@),
{
    match file_name(file_path) {
        Some(n) => push_str(out, n.as_str()),
        None => push_str(out, "ooxml"),
    }
}

/// The start of the names of the backups of a package file, e.g.
/// `.sample.docx.ooxml-backup-` for `/tmp/sample.docx`.
pub fn backup_prefix(file_path: &str) -> (r: String)
    ensures
        r@ == spec_backup_prefix(file_path@),
{
    let mut out: Vec<char> = Vec::new();
    out.push('.');
    push_name_or_ooxml(&mut out, file_path);
    push_str(&mut out, ".ooxml-backup-");
    assert(out@ =~= spec_backup_prefix(file_path@));
    string_from_chars(out.as_slice())
}

/// A file name is that of a backup with the given prefix: it starts with the prefix and ends
/// with `.bak`.
pub open spec fn is_backup_name(file_name: Seq<char>, prefix: Seq<char>) -> bool {
    starts_with(file_name, prefix) && ends_with(file_name, ".bak"@)
}

/// Whether `file_name` is that of a backup with the given prefix.
pub fn check_backup_name(file_name: &str, prefix: &str) -> (r: bool)
    ensures
        r == is_backup_name(file_name@, prefix@),
{
    let f = chars_of(file_name);
    let p = chars_of(prefix);
    let bak = chars_of(".bak");
    chars_start_with(f.as_slice(), p.as_slice()) && chars_end_with(f.as_slice(), bak.as_slice())
}

/// The name of a new backup of a package file: the prefix, the process id, `-`, a time in
/// nanoseconds, and `.bak`.
pub open spec fn spec_backup_file_name(file_path: Seq<char>, pid: u32, nanos: u128) -> Seq<char> {
    spec_backup_prefix(file_path) + decimal_digits(pid as nat) + seq!['-'] + decimal_digits(
        nanos as nat,
    ) + ".bak"@
}

/// The name of a new backup of a package file (see `spec_backup_file_name`).
pub fn backup_file_name(file_path: &str, pid: u32, nanos: u128) -> (r: String)
    ensures
        r@ == spec_backup_file_name(file_path@, pid, nanos),
{
    let prefix = backup_prefix(file_path);
    let mut out: Vec<char> = chars_of(prefix.as_str());
    push_decimal(&mut out, pid as u128);
    out.push('-');
    push_decimal(&mut out, nanos);
    push_str(&mut out, ".bak");
    string_from_chars(out.as_slice())
}

/// The name of the temporary file a save is written to beside the package file: `.`, the
/// file's name (`ooxml` where it has none), `.ooxml-save-`, the process id, `-`, a time in
/// nanoseconds, and `.tmp`.
pub open spec fn spec_temp_file_name(file_path: Seq<char>, pid: u32, nanos: u128) -> Seq<char> {
    seq!['.'] + file_name_or(file_path, "ooxml"@) + ".ooxml-save-"@ + decimal_digits(pid as nat)
        + seq!['-'] + decimal_digits(nanos as nat) + ".tmp"@
}

/// The name of the temporary file a save is written to (see `spec_temp_file_name`).
pub fn temp_file_name(file_path: &str, pid: u32, nanos: u128) -> (r: String)
    ensures
        r@ == spec_temp_file_name(file_path@, pid, nanos),
{
    let mut out: Vec<char> = Vec::new();
    out.push('.');
    push_name_or_ooxml(&mut out, file_path);
    push_str(&mut out, ".ooxml-save-");
    push_decimal(&mut out, pid as u128);
    out.push('-');
    push_decimal(&mut out, nanos);
    push_str(&mut out, ".tmp");
    assert(out@ =~= spec_temp_file_name(file_path@, pid, nanos));
    string_from_chars(out.as_slice())
}

/// The view of a backup record: (path, file name, size, modification time).
pub open spec fn backup_view(b: BackupInfo) -> (Seq<char>, Seq<char>, u64, u64) {
    (b.backup_path@, b.file_name@, b.size, b.modified_ms)
}

/// The views of a list of backup records.
pub open spec fn backup_views(v: Seq<BackupInfo>) -> Seq<(Seq<char>, Seq<char>, u64, u64)> {
    v.map_values(|b: BackupInfo| backup_view(b))
}

/// The records whose file names are those of backups with the given prefix, in order.
pub open spec fn backups_among(
    v: Seq<(Seq<char>, Seq<char>, u64, u64)>,
    prefix: Seq<char>,
) -> Seq<(Seq<char>, Seq<char>, u64, u64)>
    decreases v.len(),
{
    if v.len() == 0 {
        Seq::empty()
    } else {
        let rest = backups_among(v.drop_last(), prefix);
        if is_backup_name(v.last().1, prefix) {
            rest.push(v.last())
        } else {
            rest
        }
    }
}

/// `x` put into `sorted` (newest first) after every record at least as new as it.
pub open spec fn insert_newest_first(
    sorted: Seq<(Seq<char>, Seq<char>, u64, u64)>,
    x: (Seq<char>, Seq<char>, u64, u64),
) -> Seq<(Seq<char>, Seq<char>, u64, u64)>
    decreases sorted.len(),
{
    if sorted.len() == 0 {
        seq![x]
    } else if sorted.last().3 >= x.3 {
        sorted.push(x)
    } else {
        insert_newest_first(sorted.drop_last(), x).push(sorted.last())
    }
}

/// The records sorted newest first; records equally new keep their order (a stable sort by
/// descending modification time).
pub open spec fn newest_first(v: Seq<(Seq<char>, Seq<char>, u64, u64)>) -> Seq<(Seq<char>, Seq<char>, u64, u64)>
    decreases v.len(),
{
    if v.len() == 0 {
        Seq::empty()
    } else {
        insert_newest_first(newest_first(v.drop_last()), v.last())
    }
}

/// Newest first: no record is newer than one before it.
pub open spec fn is_newest_first(v: Seq<(Seq<char>, Seq<char>, u64, u64)>) -> bool {
    forall|i: int, j: int| 0 <= i < j < v.len() ==> v[i].3 >= v[j].3
}

/// Inserting at `pos`, after the records at least as new and before the older ones, is
/// `insert_newest_first`.
proof fn lemma_insert_at(
    sorted: Seq<(Seq<char>, Seq<char>, u64, u64)>,
    x: (Seq<char>, Seq<char>, u64, u64),
    pos: int,
)
    requires
        0 <= pos <= sorted.len(),
        forall|k: int| pos <= k < sorted.len() ==> sorted[k].3 < x.3,
        pos == 0 || sorted[pos - 1].3 >= x.3,
    ensures
        insert_newest_first(sorted, x) == sorted.take(pos).push(x) + sorted.skip(pos),
    decreases sorted.len(),
{
    if sorted.len() == 0 {
        assert(sorted.take(pos).push(x) + sorted.skip(pos) =~= seq![x]);
    } else if pos == sorted.len() {
        assert(sorted.take(pos) =~= sorted);
        assert(sorted.skip(pos) =~= Seq::<(Seq<char>, Seq<char>, u64, u64)>::empty());
        assert(sorted.take(pos).push(x) + sorted.skip(pos) =~= sorted.push(x));
    } else {
        let d = sorted.drop_last();
        assert(sorted.last().3 < x.3);
        lemma_insert_at(d, x, pos);
        assert(d.take(pos) =~= sorted.take(pos));
        assert((d.take(pos).push(x) + d.skip(pos)).push(sorted.last()) =~= sorted.take(pos).push(x)
            + sorted.skip(pos));
    }
}

/// Inserting into a list sorted newest first keeps it so, and keeps its records.
proof fn lemma_insert_sorted(
    sorted: Seq<(Seq<char>, Seq<char>, u64, u64)>,
    x: (Seq<char>, Seq<char>, u64, u64),
)
    requires
        is_newest_first(sorted),
    ensures
        is_newest_first(insert_newest_first(sorted, x)),
        insert_newest_first(sorted, x).to_multiset() == sorted.to_multiset().insert(x),
    decreases sorted.len(),
{
    broadcast use vstd::seq_lib::group_to_multiset_ensures;
    if sorted.len() == 0 {
        assert(seq![x] =~= Seq::<(Seq<char>, Seq<char>, u64, u64)>::empty().push(x));
    } else if sorted.last().3 >= x.3 {
        let r = sorted.push(x);
        assert forall|i: int, j: int| 0 <= i < j < r.len() implies r[i].3 >= r[j].3 by {
            if j == r.len() - 1 {
                if i < sorted.len() - 1 {
                    assert(sorted[i].3 >= sorted[sorted.len() - 1].3);
                }
            }
        }
    } else {
        let d = sorted.drop_last();
        assert(is_newest_first(d));
        lemma_insert_sorted(d, x);
        let inner = insert_newest_first(d, x);
        let r = inner.push(sorted.last());
        assert(inner.to_multiset().contains(inner[0])) by {
            assert(inner.len() > 0) by {
                assert(inner.to_multiset().len() == d.to_multiset().len() + 1);
            }
        }
        assert forall|i: int, j: int| 0 <= i < j < r.len() implies r[i].3 >= r[j].3 by {
            if j == r.len() - 1 {
                let e = inner[i];
                assert(inner.to_multiset().contains(e));
                assert(d.to_multiset().insert(x).contains(e));
                if e != x {
                    assert(d.to_multiset().contains(e));
                    let k = d.index_of(e);
                    assert(d[k] == e);
                    assert(sorted[k].3 >= sorted[sorted.len() - 1].3);
                }
            }
        }
        assert(sorted =~= d.push(sorted.last()));
    }
}

/// `newest_first` sorts newest first and keeps every record.
pub proof fn lemma_newest_first(v: Seq<(Seq<char>, Seq<char>, u64, u64)>)
    ensures
        is_newest_first(newest_first(v)),
        newest_first(v).to_multiset() == v.to_multiset(),
    decreases v.len(),
{
    broadcast use vstd::seq_lib::group_to_multiset_ensures;
    if v.len() > 0 {
        lemma_newest_first(v.drop_last());
        lemma_insert_sorted(newest_first(v.drop_last()), v.last());
        assert(v =~= v.drop_last().push(v.last()));
    }
}

} // verus!

verus! {

fn copy_backup(b: &BackupInfo) -> (r: BackupInfo)
    ensures
        backup_view(r) == backup_view(*b),
{
    BackupInfo {
        backup_path: b.backup_path.clone(),
        file_name: b.file_name.clone(),
        size: b.size,
        modified_ms: b.modified_ms,
    }
}

/// The backups of the package file at `file_path` among the files found beside it, newest
/// first (files equally new keep their order): those whose names start with the backup prefix
/// of the file and end with `.bak`.
pub fn select_backups(file_path: &str, candidates: &Vec<BackupInfo>) -> (r: Vec<BackupInfo>)
    ensures
        backup_views(r@) == newest_first(
            backups_among(backup_views(candidates@), spec_backup_prefix(file_path@)),
        ),
        is_newest_first(backup_views(r@)),
        backup_views(r@).to_multiset() == backups_among(
            backup_views(candidates@),
            spec_backup_prefix(file_path@),
        ).to_multiset(),
        forall|i: int| 0 <= i < r@.len() ==> is_backup_name(#[trigger] r@[i].file_name@, spec_backup_prefix(file_path@)),
{
    let prefix = backup_prefix(file_path);
    let ghost cv = backup_views(candidates@);
    let ghost pv = prefix@;
    let mut out: Vec<BackupInfo> = Vec::new();
    let mut i: usize = 0;
    while i < candidates.len()
        invariant
            0 <= i <= candidates@.len(),
            cv == backup_views(candidates@),
            pv == prefix@,
            backup_views(out@) == newest_first(backups_among(cv.take(i as int), pv)),
        decreases candidates@.len() - i,
    {
        assert(cv.take(i + 1).drop_last() =~= cv.take(i as int));
        assert(cv.take(i + 1).last() == backup_view(candidates@[i as int]));
        let c = &candidates[i];
        let ghost old_among = backups_among(cv.take(i as int), pv);
        let ghost new_among = backups_among(cv.take(i + 1), pv);
        if check_backup_name(c.file_name.as_str(), prefix.as_str()) {
            assert(new_among == old_among.push(cv[i as int]));
            assert(new_among.drop_last() =~= old_among);
            let ghost sorted = backup_views(out@);
            let x = copy_backup(c);
            let mut pos = out.len();
            while pos > 0 && out[pos - 1].modified_ms < x.modified_ms
                invariant
                    0 <= pos <= out@.len(),
                    sorted == backup_views(out@),
                    forall|k: int| pos <= k < sorted.len() ==> sorted[k].3 < x.modified_ms,
                decreases pos,
            {
                pos = pos - 1;
            }
            proof {
                lemma_insert_at(sorted, backup_view(x), pos as int);
            }
            out.insert(pos, x);
            assert(backup_views(out@) =~= sorted.take(pos as int).push(backup_view(x)) + sorted.skip(
                pos as int,
            ));
            assert(newest_first(new_among) == insert_newest_first(newest_first(old_among), cv[i as int]));
        } else {
            assert(new_among == old_among);
        }
        i = i + 1;
    }
    assert(cv.take(candidates@.len() as int) =~= cv);
    proof {
        let among = backups_among(cv, pv);
        lemma_newest_first(among);
        lemma_backups_among_named(cv, pv);
        assert forall|i: int| 0 <= i < out@.len() implies is_backup_name(
            #[trigger] out@[i].file_name@,
            pv,
        ) by {
            broadcast use vstd::seq_lib::group_to_multiset_ensures;
            let r = backup_views(out@);
            let e = r[i];
            assert(r.contains(e));
            assert(r.to_multiset().count(e) > 0);
            assert(among.to_multiset().count(e) > 0);
            assert(among.contains(e));
            let k = among.index_of(e);
            assert(among[k] == e);
        }
    }
    out
}

/// Every record that `backups_among` keeps has a backup name.
proof fn lemma_backups_among_named(v: Seq<(Seq<char>, Seq<char>, u64, u64)>, prefix: Seq<char>)
    ensures
        forall|i: int| 0 <= i < backups_among(v, prefix).len() ==> is_backup_name(
            (#[trigger] backups_among(v, prefix)[i]).1,
            prefix,
        ),
    decreases v.len(),
{
    if v.len() > 0 {
        lemma_backups_among_named(v.drop_last(), prefix);
        let rest = backups_among(v.drop_last(), prefix);
        assert forall|i: int| 0 <= i < backups_among(v, prefix).len() implies is_backup_name(
            (#[trigger] backups_among(v, prefix)[i]).1,
            prefix,
        ) by {
            if i < rest.len() {
                assert(backups_among(v, prefix)[i] == rest[i]);
            }
        }
    }
}

/// The paths of the listed backups other than `keep`: those to remove once a new backup
/// `keep` is made, so that only the newest remains.
pub fn stale_backups(backups: &Vec<BackupInfo>, keep: &str) -> (r: Vec<String>)
    ensures
        r@.map_values(|s: String| s@) == backup_views(backups@).map_values(
            |b: (Seq<char>, Seq<char>, u64, u64)| b.0,
        ).filter(|p: Seq<char>| p != keep@),
{
    let ghost paths = backup_views(backups@).map_values(|b: (Seq<char>, Seq<char>, u64, u64)| b.0);
    let mut out: Vec<String> = Vec::new();
    let mut i: usize = 0;
    while i < backups.len()
        invariant
            0 <= i <= backups@.len(),
            paths == backup_views(backups@).map_values(|b: (Seq<char>, Seq<char>, u64, u64)| b.0),
            out@.map_values(|s: String| s@) == paths.take(i as int).filter(|p: Seq<char>| p != keep@),
        decreases backups@.len() - i,
    {
        let ghost before = out@.map_values(|s: String| s@);
        assert(paths.take(i + 1).drop_last() =~= paths.take(i as int));
        assert(paths.take(i + 1).last() == backups@[i as int].backup_path@);
        reveal_with_fuel(Seq::<Seq<char>>::filter, 1);
        if !str_eq(backups[i].backup_path.as_str(), keep) {
            out.push(backups[i].backup_path.clone());
            assert(out@.map_values(|s: String| s@) =~= before.push(backups@[i as int].backup_path@));
        } else {
            assert(out@.map_values(|s: String| s@) =~= before);
        }
        i = i + 1;
    }
    assert(paths.take(backups@.len() as int) =~= paths);
    out
}

/// The directory, as components, that a backup of the package file lies in: that of the
/// file's parent, or `.` where the path has no parent.
pub open spec fn restore_dir(file_path: Seq<char>) -> Seq<Seq<char>> {
    match parent_components(file_path) {
        Some(c) => c,
        None => components(seq!['.']),
    }
}

/// Whether a backup may be restored over the package file: it must lie in the same directory
/// (compared component by component; the file's directory is `.` where its path has no
/// parent, the backup's is empty where its path has none), and its name must be that of a
/// backup of this file.
pub open spec fn spec_check_restore(file_path: Seq<char>, backup_path: Seq<char>) -> Result<(), ViewerError> {
    let target_dir = restore_dir(file_path);
    let backup_dir = match parent_components(backup_path) {
        Some(c) => c,
        None => components(Seq::empty()),
    };
    let fname = match spec_file_name(backup_path) {
        Some(n) => n,
        None => Seq::empty(),
    };
    if backup_dir != target_dir {
        Err(ViewerError::BackupElsewhere)
    } else if !is_backup_name(fname, spec_backup_prefix(file_path)) {
        Err(ViewerError::InvalidBackup)
    } else {
        Ok(())
    }
}

/// Checks that the backup at `backup_path` may be restored over the package file at
/// `file_path` (see `spec_check_restore`).
pub fn check_restore(file_path: &str, backup_path: &str) -> (r: Result<(), ViewerError>)
    ensures
        match spec_check_restore(file_path@, backup_path@) {
            Ok(()) => r is Ok,
            Err(ViewerError::BackupElsewhere) => r matches Err(ViewerError::BackupElsewhere),
            Err(_) => r matches Err(ViewerError::InvalidBackup),
        },
{
    let target_dir = match path_parent_components(file_path) {
        Some(c) => c,
        None => path_components("."),
    };
    let backup_dir = match path_parent_components(backup_path) {
        Some(c) => c,
        None => path_components(""),
    };
    proof {
        reveal_strlit(".");
        reveal_strlit("");
        assert(("."@) =~= seq!['.']);
        assert((""@) =~= Seq::<char>::empty());
    }
    if !components_eq(&backup_dir, &target_dir) {
        return Err(ViewerError::BackupElsewhere);
    }
    let fname = match file_name(backup_path) {
        Some(n) => n,
        None => String::new(),
    };
    let prefix = backup_prefix(file_path);
    if !check_backup_name(fname.as_str(), prefix.as_str()) {
        return Err(ViewerError::InvalidBackup);
    }
    Ok(())
}

} // verus!
