//! Turning a depth-first listing of a directory tree into the corpus.
//!
//! The listing names every regular file below the root by its path
//! components, with its text or the reason it could not be read. Files with a
//! hidden component (a name starting with `.`), at any depth, are left out;
//! unreadable files are reported and skipped.
use vstd::prelude::*;
use vstd::string::*;
use crate::corpus::{File, FileView};

verus! {

/// One regular file found below the scanned root.
#[derive(Debug)]
pub struct ScanEntry {
    /// Names from the root down to the file itself.
    pub components: Vec<String>,
    /// The file's text, or why it could not be opened or decoded.
    pub content: Result<String, String>,
}

/// The corpus found by a scan, and the files that could not be read.
#[derive(Debug)]
pub struct ScanOutcome {
    pub files: Vec<File>,
    /// Path and reason of each file that was skipped.
    pub skipped: Vec<(String, String)>,
}

pub open spec fn is_hidden_name(name: Seq<char>) -> bool {
    name.len() > 0 && name[0] == '.'
}

/// No component of the path is hidden.
pub open spec fn is_visible_path(components: Seq<String>) -> bool {
    forall|i: int| 0 <= i < components.len() ==> !is_hidden_name((#[trigger] components[i])@)
}

/// `root`, then each component, separated by `/`.
pub open spec fn joined_path(root: Seq<char>, components: Seq<String>) -> Seq<char>
    decreases components.len(),
{
    if components.len() == 0 {
        root
    } else {
        joined_path(root, components.drop_last()) + seq!['/'] + components.last()@
    }
}

pub open spec fn is_kept(e: ScanEntry) -> bool {
    is_visible_path(e.components@) && e.content is Ok
}

pub open spec fn is_skipped(e: ScanEntry) -> bool {
    is_visible_path(e.components@) && e.content is Err
}

/// The corpus that a listing yields, in listing order.
pub open spec fn scanned_files(root: Seq<char>, entries: Seq<ScanEntry>) -> Seq<FileView>
    decreases entries.len(),
{
    if entries.len() == 0 {
        Seq::empty()
    } else {
        let prev = scanned_files(root, entries.drop_last());
        let e = entries.last();
        if is_kept(e) {
            prev.push(
                FileView {
                    path: joined_path(root, e.components@),
                    content: e.content->Ok_0@,
                    embedding: Seq::empty(),
                },
            )
        } else {
            prev
        }
    }
}

/// The path and reason of each unreadable file of a listing, in listing order.
pub open spec fn skipped_files(root: Seq<char>, entries: Seq<ScanEntry>) -> Seq<(Seq<char>, Seq<char>)>
    decreases entries.len(),
{
    if entries.len() == 0 {
        Seq::empty()
    } else {
        let prev = skipped_files(root, entries.drop_last());
        let e = entries.last();
        if is_skipped(e) {
            prev.push((joined_path(root, e.components@), e.content->Err_0@))
        } else {
            prev
        }
    }
}

pub open spec fn file_views(files: Seq<File>) -> Seq<FileView> {
    files.map_values(|f: File| f@)
}

pub open spec fn pair_views(pairs: Seq<(String, String)>) -> Seq<(Seq<char>, Seq<char>)> {
    pairs.map_values(|p: (String, String)| (p.0@, p.1@))
}

/// Whether a directory entry's name marks it hidden.
pub fn is_hidden(name: &str) -> (r: bool)
    ensures
        r == is_hidden_name(name@),
{
    name.unicode_len() > 0 && name.get_char(0) == '.'
}

fn is_visible(components: &Vec<String>) -> (r: bool)
    ensures
        r == is_visible_path(components@),
{
    let mut i: usize = 0;
    while i < components.len()
        invariant
            i <= components@.len(),
            forall|k: int| 0 <= k < i ==> !is_hidden_name((#[trigger] components@[k])@),
        decreases components@.len() - i,
    {
        if is_hidden(components[i].as_str()) {
            return false;
        }
        i = i + 1;
    }
    true
}

fn join_path(root: &str, components: &Vec<String>) -> (r: String)
    ensures
        r@ == joined_path(root@, components@),
{
    let mut path = String::from_str(root);
    let mut i: usize = 0;
    proof {
        reveal_strlit("/");
        assert(components@.subrange(0, 0).len() == 0);
    }
    while i < components.len()
        invariant
            i <= components@.len(),
            "/"@ == seq!['/'],
            path@ == joined_path(root@, components@.subrange(0, i as int)),
        decreases components@.len() - i,
    {
        path = path.concat("/");
        path = path.concat(components[i].as_str());
        proof {
            let next = components@.subrange(0, i + 1);
            assert(next.drop_last() == components@.subrange(0, i as int));
            assert(next.last() == components@[i as int]);
        }
        i = i + 1;
    }
    proof {
        assert(components@.subrange(0, components@.len() as int) == components@);
    }
    path
}

/// Builds the corpus from a listing of the files below `root`: every file
/// with no hidden component and readable text, in listing order, with its path
/// joined under `root`; the unreadable ones are listed as skipped.
pub fn collect_files(root: &str, entries: &Vec<ScanEntry>) -> (r: ScanOutcome)
    ensures
        file_views(r.files@) == scanned_files(root@, entries@),
        pair_views(r.skipped@) == skipped_files(root@, entries@),
{
    let mut files: Vec<File> = Vec::new();
    let mut skipped: Vec<(String, String)> = Vec::new();
    let mut i: usize = 0;
    proof {
        assert(entries@.subrange(0, 0).len() == 0);
        assert(file_views(files@) =~= Seq::empty());
        assert(pair_views(skipped@) =~= Seq::empty());
    }
    while i < entries.len()
        invariant
            i <= entries@.len(),
            file_views(files@) == scanned_files(root@, entries@.subrange(0, i as int)),
            pair_views(skipped@) == skipped_files(root@, entries@.subrange(0, i as int)),
        decreases entries@.len() - i,
    {
        let entry = &entries[i];
        let ghost before = entries@.subrange(0, i as int);
        let ghost next = entries@.subrange(0, i + 1);
        proof {
            assert(next.drop_last() == before);
            assert(next.last() == entries@[i as int]);
        }
        if is_visible(&entry.components) {
            let path = join_path(root, &entry.components);
            match &entry.content {
                Ok(text) => {
                    let ghost old_files = files@;
                    files.push(File { path, content: text.clone(), embedding: Vec::new() });
                    proof {
                        assert(file_views(files@) =~= file_views(old_files).push(files@.last()@));
                    }
                },
                Err(reason) => {
                    let ghost old_skipped = skipped@;
                    skipped.push((path, reason.clone()));
                    proof {
                        assert(pair_views(skipped@) =~= pair_views(old_skipped).push(
                            (skipped@.last().0@, skipped@.last().1@),
                        ));
                    }
                },
            }
        }
        i = i + 1;
    }
    proof {
        assert(entries@.subrange(0, entries@.len() as int) == entries@);
    }
    ScanOutcome { files, skipped }
}

/// `path` is the joined path of a listed file that is kept.
pub open spec fn names_kept_entry(root: Seq<char>, entries: Seq<ScanEntry>, path: Seq<char>) -> bool {
    exists|j: int|
        0 <= j < entries.len() && is_kept(#[trigger] entries[j]) && path == joined_path(root, entries[j].components@)
}

/// Every file of a scan comes from a listed file none of whose path
/// components, at any depth, is hidden.
pub proof fn lemma_scan_excludes_hidden(root: Seq<char>, entries: Seq<ScanEntry>)
    ensures
        forall|k: int| 0 <= k < scanned_files(root, entries).len()
            ==> names_kept_entry(root, entries, (#[trigger] scanned_files(root, entries)[k]).path),
    decreases entries.len(),
{
    if entries.len() > 0 {
        let prev = entries.drop_last();
        lemma_scan_excludes_hidden(root, prev);
        let r = scanned_files(root, entries);
        assert forall|k: int| 0 <= k < r.len() implies names_kept_entry(root, entries, (#[trigger] r[k]).path) by {
            if k < scanned_files(root, prev).len() {
                assert(names_kept_entry(root, prev, scanned_files(root, prev)[k].path));
                let j = choose|j: int| 0 <= j < prev.len() && is_kept(#[trigger] prev[j])
                    && scanned_files(root, prev)[k].path == joined_path(root, prev[j].components@);
                assert(entries[j] == prev[j]);
            } else {
                let j = entries.len() - 1;
                assert(entries[j] == entries.last());
                assert(is_kept(entries[j]));
            }
        }
    }
}

/// Every listed file with no hidden component and readable text is in the
/// scan, whatever its depth, with its text.
pub proof fn lemma_scan_keeps_visible(root: Seq<char>, entries: Seq<ScanEntry>, j: int)
    requires
        0 <= j < entries.len(),
        is_kept(entries[j]),
    ensures
        exists|k: int| 0 <= k < scanned_files(root, entries).len()
            && (#[trigger] scanned_files(root, entries)[k]).path == joined_path(root, entries[j].components@)
            && scanned_files(root, entries)[k].content == entries[j].content->Ok_0@,
    decreases entries.len(),
{
    let prev = entries.drop_last();
    if j < entries.len() - 1 {
        lemma_scan_keeps_visible(root, prev, j);
        assert(prev[j] == entries[j]);
        let k = choose|k: int| 0 <= k < scanned_files(root, prev).len()
            && (#[trigger] scanned_files(root, prev)[k]).path == joined_path(root, prev[j].components@)
            && scanned_files(root, prev)[k].content == prev[j].content->Ok_0@;
        assert(scanned_files(root, entries)[k] == scanned_files(root, prev)[k]);
    } else {
        let k = scanned_files(root, prev).len() as int;
        assert(scanned_files(root, entries)[k].path == joined_path(root, entries[j].components@));
    }
}

pub open spec fn component_views(components: Seq<String>) -> Seq<Seq<char>> {
    components.map_values(|c: String| c@)
}

/// No component holds a path separator.
pub open spec fn plain_components(components: Seq<String>) -> bool {
    forall|i: int, j: int|
        0 <= i < components.len() && 0 <= j < components[i]@.len() ==> #[trigger] components[i]@[j] != '/'
}

/// A listing names each file once, by components that hold no separator.
pub open spec fn listing_names_each_file_once(entries: Seq<ScanEntry>) -> bool {
    &&& forall|i: int| 0 <= i < entries.len() ==> plain_components((#[trigger] entries[i]).components@)
    &&& forall|i: int, j: int|
        0 <= i < j < entries.len() ==> component_views((#[trigger] entries[i]).components@)
            != component_views((#[trigger] entries[j]).components@)
}

proof fn lemma_joined_path_len(root: Seq<char>, components: Seq<String>)
    ensures
        joined_path(root, components).len() >= root.len() + components.len(),
    decreases components.len(),
{
    if components.len() > 0 {
        lemma_joined_path_len(root, components.drop_last());
    }
}

proof fn lemma_joined_path_injective(root: Seq<char>, c1: Seq<String>, c2: Seq<String>)
    requires
        plain_components(c1),
        plain_components(c2),
        joined_path(root, c1) == joined_path(root, c2),
    ensures
        component_views(c1) == component_views(c2),
    decreases c1.len(),
{
    lemma_joined_path_len(root, c1);
    lemma_joined_path_len(root, c2);
    if c1.len() == 0 || c2.len() == 0 {
        if c1.len() == 0 && c2.len() == 0 {
            assert(component_views(c1) =~= component_views(c2));
        }
    } else {
        let s = joined_path(root, c1);
        let l1 = c1.last()@;
        let l2 = c2.last()@;
        let x1 = joined_path(root, c1.drop_last());
        let x2 = joined_path(root, c2.drop_last());
        assert(s == x1 + seq!['/'] + l1);
        assert(s == x2 + seq!['/'] + l2);
        assert(c1[c1.len() - 1] == c1.last());
        assert(c2[c2.len() - 1] == c2.last());
        if l1.len() < l2.len() {
            let p = s.len() - l1.len() - 1;
            assert(s[p] == '/');
            let q = p - (s.len() - l2.len());
            assert(s[p] == l2[q]);
            assert(c2[c2.len() - 1]@[q] != '/');
        } else if l2.len() < l1.len() {
            let p = s.len() - l2.len() - 1;
            assert(s[p] == '/');
            let q = p - (s.len() - l1.len());
            assert(s[p] == l1[q]);
            assert(c1[c1.len() - 1]@[q] != '/');
        }
        assert(l1 =~= s.subrange(s.len() - l1.len(), s.len() as int));
        assert(l2 =~= s.subrange(s.len() - l2.len(), s.len() as int));
        assert(x1 =~= s.subrange(0, x1.len() as int));
        assert(x2 =~= s.subrange(0, x2.len() as int));
        let d1 = c1.drop_last();
        let d2 = c2.drop_last();
        assert(plain_components(d1)) by {
            assert forall|i: int, j: int| 0 <= i < d1.len() && 0 <= j < d1[i]@.len() implies #[trigger] d1[i]@[j] != '/' by {
                assert(d1[i] == c1[i]);
            }
        }
        assert(plain_components(d2)) by {
            assert forall|i: int, j: int| 0 <= i < d2.len() && 0 <= j < d2[i]@.len() implies #[trigger] d2[i]@[j] != '/' by {
                assert(d2[i] == c2[i]);
            }
        }
        lemma_joined_path_injective(root, d1, d2);
        assert(component_views(c1) =~= component_views(d1).push(l1));
        assert(component_views(c2) =~= component_views(d2).push(l2));
    }
}

/// In the scan of a listing that names each file once, no two files share
/// a path.
pub proof fn lemma_scan_paths_distinct(root: Seq<char>, entries: Seq<ScanEntry>)
    requires
        listing_names_each_file_once(entries),
    ensures
        forall|k1: int, k2: int|
            0 <= k1 < k2 < scanned_files(root, entries).len() ==> (#[trigger] scanned_files(root, entries)[k1]).path
                != (#[trigger] scanned_files(root, entries)[k2]).path,
    decreases entries.len(),
{
    if entries.len() > 0 {
        let prev = entries.drop_last();
        assert(listing_names_each_file_once(prev)) by {
            assert forall|i: int| 0 <= i < prev.len() implies plain_components((#[trigger] prev[i]).components@) by {
                assert(prev[i] == entries[i]);
            }
            assert forall|i: int, j: int| 0 <= i < j < prev.len() implies component_views((#[trigger] prev[i]).components@)
                != component_views((#[trigger] prev[j]).components@) by {
                assert(prev[i] == entries[i] && prev[j] == entries[j]);
            }
        }
        lemma_scan_paths_distinct(root, prev);
        lemma_scan_excludes_hidden(root, prev);
        let sp = scanned_files(root, prev);
        let sa = scanned_files(root, entries);
        let last = entries.len() - 1;
        assert(entries[last] == entries.last());
        assert forall|k1: int, k2: int| 0 <= k1 < k2 < sa.len() implies (#[trigger] sa[k1]).path
            != (#[trigger] sa[k2]).path by {
            if k2 < sp.len() {
                assert(sa[k1] == sp[k1] && sa[k2] == sp[k2]);
            } else {
                assert(sa[k1] == sp[k1]);
                assert(names_kept_entry(root, prev, sp[k1].path));
                let j = choose|j: int| 0 <= j < prev.len() && is_kept(#[trigger] prev[j])
                    && sp[k1].path == joined_path(root, prev[j].components@);
                assert(prev[j] == entries[j]);
                if sa[k1].path == sa[k2].path {
                    lemma_joined_path_injective(root, entries[j].components@, entries[last].components@);
                }
            }
        }
    }
}

/// Every listed file with no hidden component and readable text is in the
/// scan exactly once, whatever its depth, when the listing names each file
/// once.
pub proof fn lemma_scan_keeps_visible_once(root: Seq<char>, entries: Seq<ScanEntry>, j: int)
    requires
        listing_names_each_file_once(entries),
        0 <= j < entries.len(),
        is_kept(entries[j]),
    ensures
        exists|k: int| 0 <= k < scanned_files(root, entries).len()
            && (#[trigger] scanned_files(root, entries)[k]).path == joined_path(root, entries[j].components@)
            && scanned_files(root, entries)[k].content == entries[j].content->Ok_0@,
        forall|k1: int, k2: int|
            0 <= k1 < scanned_files(root, entries).len() && 0 <= k2 < scanned_files(root, entries).len()
                && (#[trigger] scanned_files(root, entries)[k1]).path == joined_path(root, entries[j].components@)
                && (#[trigger] scanned_files(root, entries)[k2]).path == joined_path(root, entries[j].components@)
                ==> k1 == k2,
{
    lemma_scan_keeps_visible(root, entries, j);
    lemma_scan_paths_distinct(root, entries);
    let sa = scanned_files(root, entries);
    assert forall|k1: int, k2: int|
        0 <= k1 < sa.len() && 0 <= k2 < sa.len() && (#[trigger] sa[k1]).path == joined_path(root, entries[j].components@)
            && (#[trigger] sa[k2]).path == joined_path(root, entries[j].components@) implies k1 == k2 by {
        if k1 < k2 {
            assert(sa[k1].path != sa[k2].path);
        } else if k2 < k1 {
            assert(sa[k2].path != sa[k1].path);
        }
    }
}

} // verus!
