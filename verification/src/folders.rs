//! The folder index: virtual folder paths carried on assets, reconciled with
//! folders discovered by scanning the library root, deduplicated by path and
//! sorted lexicographically.

use vstd::prelude::*;

use crate::LibError;
use crate::strings::{lex_le, lemma_lex_le_total, lemma_lex_le_trans, str_le, str_to_chars, string_push};

verus! {

/// One visible folder: its `/`-rooted path, its display name and the number
/// of assets directly in it.
pub struct FolderInfo {
    pub path: String,
    pub name: String,
    pub asset_count: i64,
}

/// The maximal run of non-separator characters at the end of a path.
pub open spec fn trailing_run(s: Seq<char>) -> Seq<char>
    decreases s.len(),
{
    if s.len() == 0 || s.last() == '/' {
        Seq::<char>::empty()
    } else {
        trailing_run(s.drop_last()).push(s.last())
    }
}

/// The display name of a folder path: its last non-empty `/`-separated
/// segment, or `/` when there is none (the library root).
pub open spec fn spec_folder_name(s: Seq<char>) -> Seq<char>
    decreases s.len(),
{
    if s.len() == 0 {
        "/"@
    } else if s.last() == '/' {
        spec_folder_name(s.drop_last())
    } else {
        trailing_run(s)
    }
}

proof fn lemma_trailing_run_subrange(t: Seq<char>, b: int)
    requires
        0 <= b <= t.len(),
        forall|j: int| b <= j < t.len() ==> t[j] != '/',
        b > 0 ==> t[b - 1] == '/',
    ensures
        trailing_run(t) == t.subrange(b, t.len() as int),
    decreases t.len(),
{
    if t.len() == b {
        assert(t.subrange(b, t.len() as int) =~= Seq::<char>::empty());
        if b == 0 {
        } else {
            assert(t.last() == t[b - 1]);
        }
    } else {
        assert(t.last() != '/');
        lemma_trailing_run_subrange(t.drop_last(), b);
        assert(t.subrange(b, t.len() as int) =~= t.drop_last().subrange(
            b,
            t.len() - 1,
        ).push(t.last()));
    }
}

/// Compute the display name of a folder path.
#[verifier::loop_isolation(false)]
pub fn folder_display_name(path: &str) -> (r: String)
    ensures
        r@ == spec_folder_name(path@),
{
    let cs = str_to_chars(path);
    let mut e = cs.len();
    proof {
        assert(path@.take(path@.len() as int) =~= path@);
    }
    while e > 0 && cs[e - 1] == '/'
        invariant
            e <= cs@.len(),
            spec_folder_name(path@) == spec_folder_name(path@.take(e as int)),
        decreases e,
    {
        proof {
            assert(path@.take(e as int).last() == path@[e - 1]);
            assert(path@.take(e as int).drop_last() =~= path@.take(e - 1));
        }
        e = e - 1;
    }
    if e == 0 {
        proof {
            assert(path@.take(0) =~= Seq::<char>::empty());
            reveal_strlit("/");
        }
        return "/".to_owned();
    }
    let mut b = e;
    while b > 0 && cs[b - 1] != '/'
        invariant
            b <= e,
            forall|j: int| b <= j < e as int ==> path@[j] != '/',
        decreases b,
    {
        b = b - 1;
    }
    let mut r = String::new();
    let mut i = b;
    while i < e
        invariant
            b <= i <= e,
            e <= cs@.len(),
            r@ =~= path@.subrange(b as int, i as int),
        decreases e - i,
    {
        string_push(&mut r, cs[i]);
        proof {
            assert(path@.subrange(b as int, i + 1) =~= path@.subrange(b as int, i as int).push(
                path@[i as int],
            ));
        }
        i = i + 1;
    }
    proof {
        let t = path@.take(e as int);
        assert(t.last() == path@[e - 1]);
        assert(t.last() != '/');
        assert forall|j: int| b as int <= j < t.len() implies t[j] != '/' by {
            assert(t[j] == path@[j]);
        }
        if b > 0 {
            assert(t[b - 1] == path@[b - 1]);
        }
        lemma_trailing_run_subrange(t, b as int);
        assert(t.subrange(b as int, t.len() as int) =~= path@.subrange(b as int, e as int));
        assert(spec_folder_name(path@) == trailing_run(t));
    }
    r
}

/// A folder path in the `/`-rooted form the index stores: the empty path is
/// the root, and a relative path gains a leading separator.
pub open spec fn spec_normalized_folder(s: Seq<char>) -> Seq<char> {
    if s.len() == 0 {
        "/"@
    } else if s[0] != '/' {
        "/"@ + s
    } else {
        s
    }
}

/// Normalize a folder path to its `/`-rooted form.
pub fn normalize_folder_path(path: &str) -> (r: String)
    ensures
        r@ == spec_normalized_folder(path@),
{
    proof {
        reveal_strlit("/");
    }
    if path.unicode_len() == 0 {
        return "/".to_owned();
    }
    if crate::strings::str_starts_with(path, "/") {
        proof {
            assert(path@.take(1)[0] == path@[0]);
        }
        path.to_owned()
    } else {
        let mut r = "/".to_owned();
        r.append(path);
        proof {
            if path@[0] == '/' {
                assert(path@.take(1) =~= "/"@);
            }
        }
        r
    }
}

/// Whether a folder name is acceptable: non-empty and free of path
/// separators.
pub open spec fn spec_valid_folder_name(s: Seq<char>) -> bool {
    s.len() > 0 && forall|i: int| 0 <= i < s.len() ==> s[i] != '/' && s[i] != '\\'
}

/// Check a new folder name: it must be non-empty and contain no separator,
/// otherwise the operation is rejected as invalid input.
#[verifier::loop_isolation(false)]
pub fn validate_folder_name(name: &str) -> (r: Result<(), LibError>)
    ensures
        r is Ok <==> spec_valid_folder_name(name@),
        r is Err ==> r->Err_0 == LibError::InvalidInput,
{
    let cs = str_to_chars(name);
    if cs.len() == 0 {
        return Err(LibError::InvalidInput);
    }
    let n = cs.len();
    for i in 0..n
        invariant
            forall|j: int| 0 <= j < i ==> name@[j] != '/' && name@[j] != '\\',
    {
        if cs[i] == '/' || cs[i] == '\\' {
            return Err(LibError::InvalidInput);
        }
    }
    Ok(())
}

/// Whether some folder in `s` already has the path `p`.
pub open spec fn contains_path(s: Seq<FolderInfo>, p: Seq<char>) -> bool {
    exists|i: int| 0 <= i < s.len() && (#[trigger] s[i]).path@ == p
}

/// The merged folder list before sorting: the database folders, then every
/// scanned folder whose path is not already present.
pub open spec fn spec_merge_fold(acc: Seq<FolderInfo>, fs: Seq<FolderInfo>) -> Seq<FolderInfo>
    decreases fs.len(),
{
    if fs.len() == 0 {
        acc
    } else if contains_path(acc, fs.first().path@) {
        spec_merge_fold(acc, fs.drop_first())
    } else {
        spec_merge_fold(acc.push(fs.first()), fs.drop_first())
    }
}

/// Whether a folder list is sorted by path, lexicographically.
pub open spec fn sorted_by_path(s: Seq<FolderInfo>) -> bool {
    forall|i: int, j: int| 0 <= i < j < s.len() ==> lex_le((#[trigger] s[i]).path@, (#[trigger] s[j]).path@)
}

/// Test whether `s` already holds a folder with path `p`.
#[verifier::loop_isolation(false)]
pub fn holds_path(s: &Vec<FolderInfo>, p: &String) -> (r: bool)
    ensures
        r == contains_path(s@, p@),
{
    let n = s.len();
    for i in 0..n
        invariant
            forall|j: int| 0 <= j < i ==> (#[trigger] s@[j]).path@ != p@,
    {
        if crate::strings::str_eq(s[i].path.as_str(), p.as_str()) {
            return true;
        }
    }
    false
}

/// Merge the folders derived from asset rows with the folders found on disk:
/// a scanned folder is added only when no database folder already has its
/// path (so its count stays zero), and the result is sorted by path. The
/// result holds exactly the merged folders, in lexicographic path order.
#[verifier::loop_isolation(false)]
pub fn merge_folders(db_folders: Vec<FolderInfo>, fs_folders: Vec<FolderInfo>) -> (r: Vec<
    FolderInfo,
>)
    ensures
        r@.to_multiset() == spec_merge_fold(db_folders@, fs_folders@).to_multiset(),
        sorted_by_path(r@),
{
    let ghost db0 = db_folders@;
    let ghost fs0 = fs_folders@;
    let mut merged = db_folders;
    let n = fs_folders.len();
    let mut k: usize = 0;
    proof {
        assert(fs0.skip(0) =~= fs0);
    }
    while k < n
        invariant
            k <= n,
            n == fs0.len(),
            fs_folders@ == fs0,
            spec_merge_fold(db0, fs0) == spec_merge_fold(merged@, fs0.skip(k as int)),
        decreases n - k,
    {
        proof {
            assert(fs0.skip(k as int).first() == fs0[k as int]);
            assert(fs0.skip(k as int).drop_first() =~= fs0.skip(k + 1));
        }
        let present = holds_path(&merged, &fs_folders[k].path);
        if !present {
            let f = &fs_folders[k];
            let ghost prev = merged@;
            merged.push(
                FolderInfo {
                    path: f.path.clone(),
                    name: f.name.clone(),
                    asset_count: f.asset_count,
                },
            );
            proof {
                assert(merged@.last() == fs0[k as int]);
                assert(merged@ =~= prev.push(fs0[k as int]));
            }
        }
        k = k + 1;
    }
    proof {
        assert(fs0.skip(n as int) =~= Seq::<FolderInfo>::empty());
        assert(spec_merge_fold(db0, fs0) == merged@);
    }
    sort_folders(merged)
}

/// Whether no two folders share a path.
pub open spec fn distinct_paths(s: Seq<FolderInfo>) -> bool {
    forall|i: int, j: int|
        0 <= i < j < s.len() ==> (#[trigger] s[i]).path@ != (#[trigger] s[j]).path@
}

/// Sort a folder list by path, lexicographically. The result holds exactly
/// the same folders; a list of distinct paths stays distinct.
#[verifier::loop_isolation(false)]
pub fn sort_folders(list: Vec<FolderInfo>) -> (r: Vec<FolderInfo>)
    ensures
        r@.to_multiset() == list@.to_multiset(),
        sorted_by_path(r@),
        distinct_paths(list@) ==> distinct_paths(r@),
{
    let mut sorted: Vec<FolderInfo> = Vec::new();
    let m = list.len();
    let ghost all = list@;
    proof {
        assert(all.take(0) =~= Seq::<FolderInfo>::empty());
        assert(sorted@ =~= Seq::<FolderInfo>::empty());
        assert(sorted@.to_multiset() =~= all.take(0).to_multiset());
    }
    for k in 0..m
        invariant
            m == all.len(),
            list@ == all,
            sorted@.to_multiset() == all.take(k as int).to_multiset(),
            sorted_by_path(sorted@),
            forall|q: int|
                0 <= q < sorted@.len() ==> exists|w: int|
                    0 <= w < k as int && #[trigger] sorted@[q] == all[w],
    {
        let f = &list[k];
        let mut pos: usize = 0;
        while pos < sorted.len() && !str_le(f.path.as_str(), sorted[pos].path.as_str())
            invariant
                pos <= sorted@.len(),
                forall|i: int| 0 <= i < pos ==> lex_le((#[trigger] sorted@[i]).path@, f.path@),
            decreases sorted@.len() - pos,
        {
            proof {
                lemma_lex_le_total(f.path@, sorted@[pos as int].path@);
            }
            pos = pos + 1;
        }
        let ghost before = sorted@;
        sorted.insert(
            pos,
            FolderInfo { path: f.path.clone(), name: f.name.clone(), asset_count: f.asset_count },
        );
        proof {
            vstd::seq_lib::to_multiset_insert(before, pos as int, sorted@[pos as int]);
            vstd::seq_lib::to_multiset_build(all.take(k as int), all[k as int]);
            assert(all.take(k + 1) =~= all.take(k as int).push(all[k as int]));
            assert(sorted@[pos as int] == all[k as int]);
            assert forall|i: int, j: int| 0 <= i < j < sorted@.len() implies lex_le(
                (#[trigger] sorted@[i]).path@,
                (#[trigger] sorted@[j]).path@,
            ) by {
                if i < pos && j == pos {
                } else if i == pos && j > pos {
                    assert(sorted@[j] == before[j - 1]);
                    if j > pos + 1 {
                        assert(lex_le(before[pos as int].path@, before[j - 1].path@));
                        lemma_lex_le_trans(
                            sorted@[pos as int].path@,
                            before[pos as int].path@,
                            before[j - 1].path@,
                        );
                    }
                } else {
                }
            }
            assert forall|q: int|
                0 <= q < sorted@.len() implies exists|w: int|
                0 <= w < k + 1 && #[trigger] sorted@[q] == all[w] by {
                if q < pos {
                    assert(sorted@[q] == before[q]);
                } else if q == pos {
                    assert(sorted@[q] == all[k as int]);
                } else {
                    assert(sorted@[q] == before[q - 1]);
                }
            }
        }
    }
    proof {
        assert(all.take(m as int) =~= all);
        if distinct_paths(all) {
            assert forall|i: int, j: int|
                0 <= i < j < sorted@.len() implies (#[trigger] sorted@[i]).path@ != (
            #[trigger] sorted@[j]).path@ by {
                let wi = choose|w: int| 0 <= w < all.len() && sorted@[i] == all[w];
                let wj = choose|w: int| 0 <= w < all.len() && sorted@[j] == all[w];
                if wi == wj {
                    // two positions of the sorted list hold the same value:
                    // impossible, the multiset of a distinct-path list holds
                    // each value at most once
                    broadcast use vstd::seq_lib::group_to_multiset_ensures;

                    assert(sorted@[i] == sorted@[j]);
                    assert(all.no_duplicates()) by {
                        assert forall|a: int, b: int|
                            0 <= a < all.len() && 0 <= b < all.len() && a != b implies all[a]
                            != all[b] by {
                            if a < b {
                                assert(all[a].path@ != all[b].path@);
                            } else {
                                assert(all[b].path@ != all[a].path@);
                            }
                        }
                    }
                    all.lemma_multiset_has_no_duplicates();
                    vstd::seq_lib::to_multiset_remove(sorted@, i);
                    assert(sorted@.remove(i)[j - 1] == sorted@[j]);
                    assert(sorted@.remove(i).contains(sorted@[j]));
                    assert(sorted@.remove(i).to_multiset().count(sorted@[j]) > 0);
                    assert(sorted@.to_multiset().count(sorted@[i]) >= 2);
                    assert(all.to_multiset().contains(sorted@[i]));
                    assert(false);
                } else if wi < wj {
                    assert(all[wi].path@ != all[wj].path@);
                } else {
                    assert(all[wj].path@ != all[wi].path@);
                }
            }
        }
    }
    sorted
}

} // verus!
