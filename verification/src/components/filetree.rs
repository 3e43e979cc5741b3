//! The flat, sorted sequence of entries that stands for a directory tree.

use crate::strings::{
    chars_of, comes_before, dir_prefix, is_below, lemma_between_shares_prefix,
    lemma_dir_precedes_below, lemma_precedes_asymmetric, lemma_precedes_irreflexive,
    lemma_precedes_total, lemma_precedes_transitive, lies_below, precedes, precedes_at, SEPARATOR,
};
use vstd::prelude::*;
use vstd::string::StrSliceExecFns;

verus! {

/// What happened to a changed file.
#[derive(Copy, Clone, PartialEq, Eq, Debug, Structural)]
pub enum StatusItemType {
    New,
    Modified,
    Deleted,
    Renamed,
    Typechange,
}

/// One record of the raw change list.
#[derive(Debug)]
pub struct StatusItem {
    pub path: String,
    pub status: Option<StatusItemType>,
}

/// A record as a plain value.
pub struct StatusItemView {
    pub path: Seq<char>,
    pub status: Option<StatusItemType>,
}

impl View for StatusItem {
    type V = StatusItemView;

    open spec fn view(&self) -> StatusItemView {
        StatusItemView { path: self.path@, status: self.status }
    }
}

impl Clone for StatusItem {
    fn clone(&self) -> (r: Self)
        ensures
            r@ == self@,
    {
        StatusItem { path: self.path.clone(), status: self.status }
    }
}

/// Whether a directory is collapsed.
#[derive(Copy, Clone, PartialEq, Eq, Debug, Structural)]
pub struct PathCollapsed(pub bool);

/// An entry is a directory, which carries its collapse flag, or a file,
/// which carries its record.
#[derive(Debug)]
pub enum FileTreeItemKind {
    Path(PathCollapsed),
    File(StatusItem),
}

/// The kind of an entry as a plain value.
pub enum EntryKind {
    Path { collapsed: bool },
    File { item: StatusItemView },
}

impl View for FileTreeItemKind {
    type V = EntryKind;

    open spec fn view(&self) -> EntryKind {
        match self {
            FileTreeItemKind::Path(c) => EntryKind::Path { collapsed: c.0 },
            FileTreeItemKind::File(item) => EntryKind::File { item: item@ },
        }
    }
}

impl Clone for FileTreeItemKind {
    fn clone(&self) -> (r: Self)
        ensures
            r@ == self@,
    {
        match self {
            FileTreeItemKind::Path(c) => FileTreeItemKind::Path(*c),
            FileTreeItemKind::File(item) => FileTreeItemKind::File(item.clone()),
        }
    }
}

/// What every entry holds, whatever its kind.
#[derive(Debug)]
pub struct TreeItemInfo {
    /// Whether the entry is shown: derived from the collapse flags.
    pub visible: bool,
    /// The entry's identity and its place in the hierarchy.
    pub full_path: String,
}

/// One row of the flattened tree.
#[derive(Debug)]
pub struct FileTreeItem {
    pub info: TreeItemInfo,
    pub kind: FileTreeItemKind,
}

/// An entry as a plain value.
pub struct Entry {
    pub full_path: Seq<char>,
    pub visible: bool,
    pub kind: EntryKind,
}

impl View for FileTreeItem {
    type V = Entry;

    open spec fn view(&self) -> Entry {
        Entry { full_path: self.info.full_path@, visible: self.info.visible, kind: self.kind@ }
    }
}

impl Clone for FileTreeItem {
    fn clone(&self) -> (r: Self)
        ensures
            r@ == self@,
    {
        FileTreeItem {
            info: TreeItemInfo {
                visible: self.info.visible,
                full_path: self.info.full_path.clone(),
            },
            kind: self.kind.clone(),
        }
    }
}

/// The entry is a directory whose collapse flag is set.
pub open spec fn is_collapsed(e: Entry) -> bool {
    e.kind == (EntryKind::Path { collapsed: true })
}

/// The entry with its collapse flag set to `collapsed`, if it is a
/// directory; a file is left as it is.
pub open spec fn with_collapsed(e: Entry, collapsed: bool) -> Entry {
    match e.kind {
        EntryKind::Path { .. } => Entry { kind: EntryKind::Path { collapsed }, ..e },
        EntryKind::File { .. } => e,
    }
}

/// The entry with its visibility set to `visible`.
pub open spec fn with_visible(e: Entry, visible: bool) -> Entry {
    Entry { visible, ..e }
}

/// The entries stand in strictly ascending order of their paths; so no path
/// occurs twice.
pub open spec fn sorted(entries: Seq<Entry>) -> bool {
    forall|i: int, j: int|
        0 <= i < j < entries.len() ==> precedes(
            #[trigger] entries[i].full_path,
            #[trigger] entries[j].full_path,
        )
}

/// The path of entry `k` begins with `prefix`.
pub open spec fn under(entries: Seq<Entry>, prefix: Seq<char>, k: int) -> bool {
    prefix.is_prefix_of(entries[k].full_path)
}

/// Every entry from `start` to `j` has a path that begins with `prefix`:
/// `j` lies in the unbroken run of such entries that begins at `start`.
pub open spec fn in_run(entries: Seq<Entry>, prefix: Seq<char>, start: int, j: int) -> bool {
    forall|k: int| start <= k <= j ==> #[trigger] under(entries, prefix, k)
}

/// `path` lies in the scope of a walk: there is no scope, or the path
/// begins with it.
pub open spec fn in_scope(scope: Option<Seq<char>>, path: Seq<char>) -> bool {
    match scope {
        Some(p) => p.is_prefix_of(path),
        None => true,
    }
}

/// Entry `d` is a collapsed directory within the scope, and every entry
/// after it up to `i` lies below it.
pub open spec fn heads_run(entries: Seq<Entry>, scope: Option<Seq<char>>, d: int, i: int) -> bool {
    &&& is_collapsed(entries[d])
    &&& in_scope(scope, entries[d].full_path)
    &&& in_run(entries, dir_prefix(entries[d].full_path), d + 1, i)
}

/// Some collapsed directory within the scope, at or after `start` and
/// before `i`, is followed by an unbroken run of its contents that reaches
/// entry `i`.
pub open spec fn covered(entries: Seq<Entry>, scope: Option<Seq<char>>, start: int, i: int) -> bool {
    exists|d: int| start <= d < i && #[trigger] heads_run(entries, scope, d, i)
}

/// `dir` names a directory above `path`: `path` begins with `dir` and a
/// separator, and `dir` is not empty.
pub open spec fn is_ancestor_dir(dir: Seq<char>, path: Seq<char>) -> bool {
    dir.len() > 0 && is_below(path, dir)
}

/// Entry `k` exists and is a directory above `path`.
pub open spec fn is_ancestor_at(entries: Seq<Entry>, path: Seq<char>, k: int) -> bool {
    0 <= k < entries.len() && is_ancestor_dir(entries[k].full_path, path)
}

/// `r` is the position of the nearest directory above `path` among the
/// entries at or before `hint`, the last such entry; or 0 where there is
/// none.
pub open spec fn is_parent_index(entries: Seq<Entry>, path: Seq<char>, hint: int, r: int) -> bool {
    &&& forall|k: int| r < k <= hint ==> !#[trigger] is_ancestor_at(entries, path, k)
    &&& {
        ||| 0 <= r <= hint && is_ancestor_at(entries, path, r)
        ||| r == 0 && !is_ancestor_at(entries, path, 0)
    }
}

/// The paths of the collapsed directories, in the order of the entries.
pub open spec fn collapsed_paths(entries: Seq<Entry>) -> Seq<Seq<char>>
    decreases entries.len(),
{
    if entries.len() == 0 {
        Seq::empty()
    } else {
        let rest = collapsed_paths(entries.drop_last());
        if is_collapsed(entries.last()) {
            rest.push(entries.last().full_path)
        } else {
            rest
        }
    }
}

/// The paths stand in strictly ascending order; so none occurs twice.
pub open spec fn ascending(paths: Seq<Seq<char>>) -> bool {
    forall|i: int, j: int| 0 <= i < j < paths.len() ==> precedes(#[trigger] paths[i], #[trigger] paths[j])
}

/// The strings of a list as plain values.
pub open spec fn string_views(v: Seq<String>) -> Seq<Seq<char>> {
    v.map_values(|s: String| s@)
}

/// Entry `j` exists and has the path `path`.
pub open spec fn has_path_at(entries: Seq<Entry>, path: Seq<char>, j: int) -> bool {
    0 <= j < entries.len() && entries[j].full_path == path
}

/// Some entry has the path `path`.
pub open spec fn has_path(entries: Seq<Entry>, path: Seq<char>) -> bool {
    exists|j: int| has_path_at(entries, path, j)
}

/// `pos` parts the entries whose paths come before `path` from the others.
pub open spec fn splits_at(entries: Seq<Entry>, path: Seq<char>, pos: int) -> bool {
    &&& 0 <= pos <= entries.len()
    &&& forall|i: int| 0 <= i < pos ==> precedes(#[trigger] entries[i].full_path, path)
    &&& forall|i: int| pos <= i < entries.len() ==> !precedes(#[trigger] entries[i].full_path, path)
}

/// The records of a change list as plain values.
pub open spec fn records_view(list: Seq<StatusItem>) -> Seq<StatusItemView> {
    list.map_values(|r: StatusItem| r@)
}

/// Some record has the path `path`.
pub open spec fn is_listed(records: Seq<StatusItemView>, path: Seq<char>) -> bool {
    exists|k: int| 0 <= k < records.len() && (#[trigger] records[k]).path == path
}

/// `dir` is a directory above the path of some record.
pub open spec fn is_directory_of(records: Seq<StatusItemView>, dir: Seq<char>) -> bool {
    exists|i: int| 0 <= i < records.len() && is_ancestor_dir(dir, #[trigger] records[i].path)
}

/// The directories above the paths of the records.
pub open spec fn directories(records: Seq<StatusItemView>) -> Set<Seq<char>> {
    Set::new(|d: Seq<char>| is_directory_of(records, d))
}

/// Record `i` is the first with the path `path`.
pub open spec fn first_listed(records: Seq<StatusItemView>, path: Seq<char>, i: int) -> bool {
    &&& 0 <= i < records.len()
    &&& records[i].path == path
    &&& forall|k: int| 0 <= k < i ==> (#[trigger] records[k]).path != path
}

/// The entry is what the tree holds for its path: where the path is among
/// `dirs`, a directory, collapsed exactly if the path is among
/// `collapsed`; else the file of the first record with that path.
pub open spec fn entry_fits(
    e: Entry,
    dirs: Set<Seq<char>>,
    records: Seq<StatusItemView>,
    collapsed: Set<Seq<char>>,
) -> bool {
    if dirs.contains(e.full_path) {
        e.kind == (EntryKind::Path { collapsed: collapsed.contains(e.full_path) })
    } else {
        exists|i: int| #[trigger]
            first_listed(records, e.full_path, i) && e.kind == (EntryKind::File {
                item: records[i],
            })
    }
}

/// The entries are the tree of the directories `dirs` and the files of
/// `records`: sorted, one entry for each path, and none besides.
pub open spec fn is_tree_over(
    entries: Seq<Entry>,
    dirs: Set<Seq<char>>,
    records: Seq<StatusItemView>,
    collapsed: Set<Seq<char>>,
) -> bool {
    &&& sorted(entries)
    &&& forall|j: int|
        0 <= j < entries.len() ==> entry_fits(#[trigger] entries[j], dirs, records, collapsed)
    &&& forall|i: int| 0 <= i < records.len() ==> has_path(entries, #[trigger] records[i].path)
    &&& forall|d: Seq<char>| #[trigger] dirs.contains(d) ==> has_path(entries, d)
}

/// The entries are the tree of a change list: one entry for each listed
/// path and one for each directory above a listed path, in strictly
/// ascending order of their paths. A path that is a directory above a
/// listed path is a directory, collapsed exactly if it is among
/// `collapsed`; any other is the file of the first record that lists it.
pub open spec fn is_tree_of(
    entries: Seq<Entry>,
    records: Seq<StatusItemView>,
    collapsed: Set<Seq<char>>,
) -> bool {
    is_tree_over(entries, directories(records), records, collapsed)
}

/// Every entry is visible.
pub open spec fn all_visible(entries: Seq<Entry>) -> bool {
    forall|j: int| 0 <= j < entries.len() ==> (#[trigger] entries[j]).visible
}

/// The directories above `path` whose own paths are shorter than `k`.
pub open spec fn ancestors_before(path: Seq<char>, k: int) -> Set<Seq<char>> {
    Set::new(|d: Seq<char>| is_ancestor_dir(d, path) && d.len() < k)
}

/// Where the entries are sorted, `path` is found at the position that
/// parts them or nowhere.
pub proof fn lemma_split_finds(entries: Seq<Entry>, path: Seq<char>, pos: int)
    requires
        sorted(entries),
        splits_at(entries, path, pos),
    ensures
        has_path(entries, path) <==> has_path_at(entries, path, pos),
        has_path_at(entries, path, pos) <==> (pos < entries.len() && !precedes(
            path,
            entries[pos].full_path,
        )),
{
    lemma_precedes_irreflexive(path);
    if has_path(entries, path) {
        let j = choose|j: int| has_path_at(entries, path, j);
        if j < pos {
            assert(precedes(entries[j].full_path, path));
        } else if j > pos {
            assert(precedes(entries[pos].full_path, entries[j].full_path));
        }
    }
    if pos < entries.len() && !precedes(path, entries[pos].full_path) {
        assert(!precedes(entries[pos].full_path, path));
        lemma_precedes_total(path, entries[pos].full_path);
    }
}

/// An entry put in at the position that parts the paths before its own
/// from the others keeps the entries sorted, and adds its path and no
/// other.
pub proof fn lemma_insert_keeps_sorted(entries: Seq<Entry>, pos: int, e: Entry)
    requires
        sorted(entries),
        splits_at(entries, e.full_path, pos),
        !has_path(entries, e.full_path),
    ensures
        sorted(entries.insert(pos, e)),
        forall|p: Seq<char>| #[trigger]
            has_path(entries.insert(pos, e), p) <==> (p == e.full_path || has_path(entries, p)),
{
    let ins = entries.insert(pos, e);
    assert forall|k: int| pos <= k < entries.len() implies precedes(
        e.full_path,
        #[trigger] entries[k].full_path,
    ) by {
        assert(!has_path_at(entries, e.full_path, k));
        lemma_precedes_total(e.full_path, entries[k].full_path);
    }
    assert forall|i: int, j: int| 0 <= i < j < ins.len() implies precedes(
        #[trigger] ins[i].full_path,
        #[trigger] ins[j].full_path,
    ) by {
        if j < pos {
            assert(precedes(entries[i].full_path, entries[j].full_path));
        } else if j == pos {
            assert(precedes(entries[i].full_path, e.full_path));
        } else if i < pos {
            assert(precedes(entries[i].full_path, entries[j - 1].full_path));
        } else if i == pos {
            assert(precedes(e.full_path, entries[j - 1].full_path));
        } else {
            assert(precedes(entries[i - 1].full_path, entries[j - 1].full_path));
        }
    }
    assert forall|p: Seq<char>| #[trigger]
        has_path(ins, p) <==> (p == e.full_path || has_path(entries, p)) by {
        if has_path(ins, p) {
            let j = choose|j: int| has_path_at(ins, p, j);
            if j < pos {
                assert(has_path_at(entries, p, j));
            } else if j > pos {
                assert(has_path_at(entries, p, j - 1));
            }
        }
        if p == e.full_path {
            assert(has_path_at(ins, p, pos));
        }
        if has_path(entries, p) {
            let j = choose|j: int| has_path_at(entries, p, j);
            if j < pos {
                assert(has_path_at(ins, p, j));
            } else {
                assert(has_path_at(ins, p, j + 1));
            }
        }
    }
}

/// A directory above `path` whose own path has `k` characters is the part
/// of `path` before a separator at position `k`.
pub proof fn lemma_ancestor_of_length(path: Seq<char>, d: Seq<char>, k: int)
    requires
        0 < k < path.len(),
    ensures
        (is_ancestor_dir(d, path) && d.len() == k) <==> (path[k] == SEPARATOR && d
            == path.subrange(0, k)),
{
    let p = dir_prefix(d);
    if is_ancestor_dir(d, path) && d.len() == k {
        assert(path.subrange(0, k + 1)[k] == p[k]);
        assert forall|i: int| 0 <= i < k implies d[i] == path[i] by {
            assert(p[i] == d[i]);
            assert(path.subrange(0, k + 1)[i] == path[i]);
        }
        assert(d =~= path.subrange(0, k));
    }
    if path[k] == SEPARATOR && d == path.subrange(0, k) {
        assert(p =~= path.subrange(0, k + 1));
    }
}

/// One record more adds the directories above its path to those of the
/// records before it.
pub proof fn lemma_directories_push(records: Seq<StatusItemView>, x: StatusItemView)
    ensures
        directories(records.push(x)) == directories(records).union(
            ancestors_before(x.path, x.path.len() as int),
        ),
{
    let more = records.push(x);
    let n = records.len() as int;
    assert forall|d: Seq<char>|
        directories(more).contains(d) <==> directories(records).union(
            ancestors_before(x.path, x.path.len() as int),
        ).contains(d) by {
        if is_directory_of(more, d) {
            let i = choose|i: int| 0 <= i < more.len() && is_ancestor_dir(d, #[trigger] more[i].path);
            if i < n {
                assert(is_ancestor_dir(d, records[i].path));
            }
        }
        if is_directory_of(records, d) {
            let i = choose|i: int|
                0 <= i < records.len() && is_ancestor_dir(d, #[trigger] records[i].path);
            assert(is_ancestor_dir(d, more[i].path));
        }
        if is_ancestor_dir(d, x.path) {
            assert(is_ancestor_dir(d, more[n].path));
        }
    }
    assert(directories(more) =~= directories(records).union(
        ancestors_before(x.path, x.path.len() as int),
    ));
}

/// The two sequences hold the same paths in the same order.
pub open spec fn same_paths(a: Seq<Entry>, b: Seq<Entry>) -> bool {
    &&& a.len() == b.len()
    &&& forall|j: int| 0 <= j < a.len() ==> (#[trigger] a[j]).full_path == b[j].full_path
}

/// The two sequences hold the same paths and kinds in the same order: they
/// differ in visibility at most.
pub open spec fn same_shape(a: Seq<Entry>, b: Seq<Entry>) -> bool {
    &&& same_paths(a, b)
    &&& forall|j: int| 0 <= j < a.len() ==> (#[trigger] a[j]).kind == b[j].kind
}

/// Whether the entries are sorted depends on their paths alone.
pub proof fn lemma_same_paths_sorted(a: Seq<Entry>, b: Seq<Entry>)
    requires
        same_paths(a, b),
        sorted(a),
    ensures
        sorted(b),
{
    assert forall|i: int, j: int| 0 <= i < j < b.len() implies precedes(
        #[trigger] b[i].full_path,
        #[trigger] b[j].full_path,
    ) by {
        assert(precedes(a[i].full_path, a[j].full_path));
    }
}

/// What a collapsed directory covers depends on the paths and kinds of the
/// entries from `start` on alone.
pub proof fn lemma_same_shape_covered(
    a: Seq<Entry>,
    b: Seq<Entry>,
    scope: Option<Seq<char>>,
    start: int,
    i: int,
)
    requires
        a.len() == b.len(),
        0 <= start,
        i < a.len(),
        forall|j: int|
            start <= j <= i ==> (#[trigger] a[j]).full_path == b[j].full_path && a[j].kind
                == b[j].kind,
    ensures
        covered(a, scope, start, i) == covered(b, scope, start, i),
{
    if covered(a, scope, start, i) {
        let d = choose|d: int| start <= d < i && #[trigger] heads_run(a, scope, d, i);
        let p = dir_prefix(a[d].full_path);
        assert(a[d].kind == b[d].kind);
        assert(a[d].full_path == b[d].full_path);
        assert forall|k: int| d + 1 <= k <= i implies #[trigger] under(b, p, k) by {
            assert(under(a, p, k));
            assert(a[k].full_path == b[k].full_path);
        }
        assert(heads_run(b, scope, d, i));
    }
    if covered(b, scope, start, i) {
        let d = choose|d: int| start <= d < i && #[trigger] heads_run(b, scope, d, i);
        let p = dir_prefix(b[d].full_path);
        assert(a[d].kind == b[d].kind);
        assert(a[d].full_path == b[d].full_path);
        assert forall|k: int| d + 1 <= k <= i implies #[trigger] under(a, p, k) by {
            assert(under(b, p, k));
            assert(a[k].full_path == b[k].full_path);
        }
        assert(heads_run(a, scope, d, i));
    }
}

/// The path of entry `j` sorts strictly between the path of entry `d` and
/// that path followed by a separator: after the directory and before
/// everything below it.
pub open spec fn sorts_inside(entries: Seq<Entry>, d: int, j: int) -> bool {
    &&& precedes(entries[d].full_path, entries[j].full_path)
    &&& precedes(entries[j].full_path, dir_prefix(entries[d].full_path))
}

/// What lies below entry `d` follows it without a gap: no entry sorts
/// between the two.
pub open spec fn contiguous_at(entries: Seq<Entry>, d: int) -> bool {
    forall|j: int| 0 <= j < entries.len() ==> !#[trigger] sorts_inside(entries, d, j)
}

/// What lies below an entry follows it without a gap, for every entry.
pub open spec fn contiguous(entries: Seq<Entry>) -> bool {
    forall|d: int| 0 <= d < entries.len() ==> #[trigger] contiguous_at(entries, d)
}

/// Entry `d` is a collapsed directory and entry `j` lies below it.
pub open spec fn nests(entries: Seq<Entry>, d: int, j: int) -> bool {
    is_collapsed(entries[d]) && is_below(entries[j].full_path, entries[d].full_path)
}

/// Entry `j` lies below a collapsed directory at or after `from`.
pub open spec fn below_collapsed(entries: Seq<Entry>, from: int, j: int) -> bool {
    exists|d: int| from <= d < j && #[trigger] nests(entries, d, j)
}

/// No path of an entry holds a character that sorts before the separator.
pub open spec fn no_char_before_separator(entries: Seq<Entry>) -> bool {
    forall|j: int, i: int|
        0 <= j < entries.len() && 0 <= i < entries[j].full_path.len() ==> (
        #[trigger] entries[j].full_path[i]) as int >= SEPARATOR as int
}

/// Only a character that sorts before the separator can put a path between
/// a directory and what lies below it: where no path holds one, what lies
/// below an entry follows it without a gap.
pub proof fn lemma_no_gap_without_early_chars(entries: Seq<Entry>)
    requires
        no_char_before_separator(entries),
    ensures
        contiguous(entries),
{
    assert forall|d: int| 0 <= d < entries.len() implies #[trigger] contiguous_at(entries, d) by {
        assert forall|j: int| 0 <= j < entries.len() implies !#[trigger] sorts_inside(
            entries,
            d,
            j,
        ) by {
            let dir = entries[d].full_path;
            let prefix = dir_prefix(dir);
            let path = entries[j].full_path;
            if sorts_inside(entries, d, j) {
                let k = choose|k: int| precedes_at(path, prefix, k);
                assert forall|i: int| 0 <= i < k && i < dir.len() implies path[i] == dir[i] by {
                    assert(path[i] == prefix[i]);
                }
                if k < dir.len() {
                    if k < path.len() {
                        assert(prefix[k] == dir[k]);
                    }
                    assert(precedes_at(path, dir, k));
                    lemma_precedes_asymmetric(path, dir);
                } else if k < path.len() {
                    assert(prefix[k] == SEPARATOR);
                    assert(path[k] as int >= SEPARATOR as int);
                } else {
                    assert(path =~= dir);
                    lemma_precedes_irreflexive(dir);
                }
            }
        }
    }
}

/// In a sorted sequence, where what lies below entry `d` follows it without
/// a gap, an entry below `d` comes after it, and so does every entry
/// between the two.
pub proof fn lemma_below_in_run(entries: Seq<Entry>, d: int, i: int)
    requires
        sorted(entries),
        0 <= d < entries.len(),
        0 <= i < entries.len(),
        contiguous_at(entries, d),
        is_below(entries[i].full_path, entries[d].full_path),
    ensures
        d < i,
        in_run(entries, dir_prefix(entries[d].full_path), d + 1, i),
{
    let dir = entries[d].full_path;
    let prefix = dir_prefix(dir);
    let path = entries[i].full_path;
    lemma_dir_precedes_below(path, dir);
    lemma_precedes_irreflexive(dir);
    if i < d {
        assert(precedes(entries[i].full_path, entries[d].full_path));
        lemma_precedes_asymmetric(path, dir);
    }
    assert forall|k: int| d + 1 <= k <= i implies #[trigger] under(entries, prefix, k) by {
        assert(precedes(entries[d].full_path, entries[k].full_path));
        assert(!sorts_inside(entries, d, k));
        if k < i {
            assert(precedes(entries[k].full_path, entries[i].full_path));
            lemma_precedes_asymmetric(entries[k].full_path, path);
        } else {
            lemma_precedes_irreflexive(path);
        }
        lemma_between_shares_prefix(prefix, entries[k].full_path, path);
    }
}

/// In a sorted sequence in which what lies below an entry follows it
/// without a gap, a collapsed directory covers exactly what lies below it:
/// an entry is covered exactly if it lies below a collapsed directory.
pub proof fn lemma_covered_is_below_collapsed(entries: Seq<Entry>, from: int, j: int)
    requires
        sorted(entries),
        contiguous(entries),
        0 <= from,
        j < entries.len(),
    ensures
        covered(entries, None, from, j) == below_collapsed(entries, from, j),
{
    if covered(entries, None, from, j) {
        let d = choose|d: int| from <= d < j && #[trigger] heads_run(entries, None, d, j);
        assert(under(entries, dir_prefix(entries[d].full_path), j));
        assert(nests(entries, d, j));
    }
    if below_collapsed(entries, from, j) {
        let d = choose|d: int| from <= d < j && #[trigger] nests(entries, d, j);
        assert(contiguous_at(entries, d));
        lemma_below_in_run(entries, d, j);
        assert(heads_run(entries, None, d, j));
    }
}

/// Whether the entries are the tree of a change list depends on paths and
/// kinds alone.
pub proof fn lemma_same_shape_tree(
    a: Seq<Entry>,
    b: Seq<Entry>,
    dirs: Set<Seq<char>>,
    records: Seq<StatusItemView>,
    collapsed: Set<Seq<char>>,
)
    requires
        same_shape(a, b),
        is_tree_over(a, dirs, records, collapsed),
    ensures
        is_tree_over(b, dirs, records, collapsed),
{
    lemma_same_paths_sorted(a, b);
    assert forall|j: int| 0 <= j < b.len() implies entry_fits(
        #[trigger] b[j],
        dirs,
        records,
        collapsed,
    ) by {
        assert(entry_fits(a[j], dirs, records, collapsed));
        assert(a[j].kind == b[j].kind);
        assert(a[j].full_path == b[j].full_path);
    }
    assert forall|p: Seq<char>| has_path(a, p) implies has_path(b, p) by {
        let j = choose|j: int| has_path_at(a, p, j);
        assert(a[j].full_path == b[j].full_path);
        assert(has_path_at(b, p, j));
    }
    assert forall|i: int| 0 <= i < records.len() implies has_path(
        b,
        #[trigger] records[i].path,
    ) by {
        assert(has_path(a, records[i].path));
    }
    assert forall|d: Seq<char>| #[trigger] dirs.contains(d) implies has_path(b, d) by {
        assert(has_path(a, d));
    }
}

proof fn lemma_sorted_agree_before(a: Seq<Entry>, b: Seq<Entry>, k: int)
    requires
        sorted(a),
        sorted(b),
        forall|p: Seq<char>| has_path(a, p) <==> has_path(b, p),
        0 <= k <= a.len(),
    ensures
        k <= b.len(),
        forall|i: int| 0 <= i < k ==> (#[trigger] a[i]).full_path == b[i].full_path,
    decreases k,
{
    if k > 0 {
        let last = k - 1;
        lemma_sorted_agree_before(a, b, last);
        let p = a[last].full_path;
        lemma_precedes_irreflexive(p);
        assert(has_path_at(a, p, last));
        assert(has_path(a, p));
        let m = choose|m: int| has_path_at(b, p, m);
        if m < last {
            assert(a[m].full_path == b[m].full_path);
            assert(precedes(a[m].full_path, a[last].full_path));
        } else if m > last {
            let q = b[last].full_path;
            assert(has_path_at(b, q, last));
            assert(has_path(b, q));
            let n = choose|n: int| has_path_at(a, q, n);
            assert(precedes(b[last].full_path, b[m].full_path));
            if n < last {
                assert(a[n].full_path == b[n].full_path);
                assert(precedes(b[n].full_path, b[last].full_path));
                lemma_precedes_irreflexive(q);
            } else if n > last {
                assert(precedes(a[last].full_path, a[n].full_path));
                lemma_precedes_asymmetric(p, q);
            }
        }
    }
}

/// Two sorted sequences that hold the same paths hold them in the same
/// places.
pub proof fn lemma_sorted_same_paths(a: Seq<Entry>, b: Seq<Entry>)
    requires
        sorted(a),
        sorted(b),
        forall|p: Seq<char>| has_path(a, p) <==> has_path(b, p),
    ensures
        same_paths(a, b),
{
    lemma_sorted_agree_before(a, b, a.len() as int);
    lemma_sorted_agree_before(b, a, b.len() as int);
}

/// A change list has one tree: two sequences that are both the tree of a
/// list, with the same paths collapsed, hold the same paths and kinds in
/// the same places.
pub proof fn lemma_tree_unique(
    a: Seq<Entry>,
    b: Seq<Entry>,
    records: Seq<StatusItemView>,
    collapsed: Set<Seq<char>>,
)
    requires
        is_tree_of(a, records, collapsed),
        is_tree_of(b, records, collapsed),
    ensures
        same_shape(a, b),
{
    let dirs = directories(records);
    assert forall|p: Seq<char>| has_path(a, p) <==> has_path(b, p) by {
        if has_path(a, p) {
            let j = choose|j: int| has_path_at(a, p, j);
            assert(entry_fits(a[j], dirs, records, collapsed));
            if !dirs.contains(p) {
                let i = choose|i: int| #[trigger]
                    first_listed(records, p, i) && a[j].kind == (EntryKind::File {
                        item: records[i],
                    });
                assert(has_path(b, records[i].path));
            }
        }
        if has_path(b, p) {
            let j = choose|j: int| has_path_at(b, p, j);
            assert(entry_fits(b[j], dirs, records, collapsed));
            if !dirs.contains(p) {
                let i = choose|i: int| #[trigger]
                    first_listed(records, p, i) && b[j].kind == (EntryKind::File {
                        item: records[i],
                    });
                assert(has_path(a, records[i].path));
            }
        }
    }
    lemma_sorted_same_paths(a, b);
    assert forall|j: int| 0 <= j < a.len() implies (#[trigger] a[j]).kind == b[j].kind by {
        let p = a[j].full_path;
        assert(b[j].full_path == p);
        assert(entry_fits(a[j], dirs, records, collapsed));
        assert(entry_fits(b[j], dirs, records, collapsed));
        if !dirs.contains(p) {
            let i1 = choose|i: int| #[trigger]
                first_listed(records, p, i) && a[j].kind == (EntryKind::File { item: records[i] });
            let i2 = choose|i: int| #[trigger]
                first_listed(records, p, i) && b[j].kind == (EntryKind::File { item: records[i] });
            if i1 < i2 {
                assert(records[i1].path != p);
            } else if i2 < i1 {
                assert(records[i2].path != p);
            }
        }
    }
}

/// The collapsed paths of sorted entries are strictly ascending: what an
/// ordered set of them would hold, in its order.
pub proof fn lemma_collapsed_paths_ascending(entries: Seq<Entry>)
    requires
        sorted(entries),
    ensures
        ascending(collapsed_paths(entries)),
    decreases entries.len(),
{
    if entries.len() > 0 {
        let front = entries.drop_last();
        let last = entries.last();
        let rest = collapsed_paths(front);
        assert forall|i: int, j: int| 0 <= i < j < front.len() implies precedes(
            #[trigger] front[i].full_path,
            #[trigger] front[j].full_path,
        ) by {
            assert(precedes(entries[i].full_path, entries[j].full_path));
        }
        lemma_collapsed_paths_ascending(front);
        let all = collapsed_paths(entries);
        assert forall|i: int, j: int| 0 <= i < j < all.len() implies precedes(
            #[trigger] all[i],
            #[trigger] all[j],
        ) by {
            if j < rest.len() {
                assert(precedes(rest[i], rest[j]));
            } else {
                lemma_collapsed_paths_contains(front, rest[i]);
                assert(rest.contains(rest[i]));
                let k = choose|k: int|
                    0 <= k < front.len() && is_collapsed(#[trigger] front[k]) && front[k].full_path
                        == rest[i];
                assert(precedes(entries[k].full_path, entries[entries.len() - 1].full_path));
            }
        }
    }
}

/// No path of a record holds a character that sorts before the separator.
pub open spec fn records_hold_no_early_char(records: Seq<StatusItemView>) -> bool {
    forall|k: int, i: int|
        0 <= k < records.len() && 0 <= i < records[k].path.len() ==> (
        #[trigger] records[k].path[i]) as int >= SEPARATOR as int
}

/// In the tree of a change list none of whose paths holds a character that
/// sorts before the separator, what lies below an entry follows it without
/// a gap.
pub proof fn lemma_tree_contiguous(
    entries: Seq<Entry>,
    records: Seq<StatusItemView>,
    collapsed: Set<Seq<char>>,
)
    requires
        is_tree_of(entries, records, collapsed),
        records_hold_no_early_char(records),
    ensures
        contiguous(entries),
{
    let dirs = directories(records);
    assert forall|j: int, i: int|
        0 <= j < entries.len() && 0 <= i < entries[j].full_path.len() implies (
    #[trigger] entries[j].full_path[i]) as int >= SEPARATOR as int by {
        let p = entries[j].full_path;
        assert(entry_fits(entries[j], dirs, records, collapsed));
        if dirs.contains(p) {
            let k = choose|k: int|
                0 <= k < records.len() && is_ancestor_dir(p, #[trigger] records[k].path);
            let whole = records[k].path;
            let q = dir_prefix(p);
            assert(whole.subrange(0, q.len() as int)[i] == whole[i]);
            assert(q[i] == p[i]);
            assert(records[k].path[i] as int >= SEPARATOR as int);
        } else {
            let k = choose|k: int| #[trigger]
                first_listed(records, p, k) && entries[j].kind == (EntryKind::File {
                    item: records[k],
                });
            assert(records[k].path[i] as int >= SEPARATOR as int);
        }
    }
    lemma_no_gap_without_early_chars(entries);
}

/// A rebuild keeps the collapse flags by path: a directory of the new tree
/// is collapsed exactly if the old entries held a collapsed directory of
/// the same path.
pub proof fn lemma_tree_keeps_collapsed(
    before: Seq<Entry>,
    after: Seq<Entry>,
    records: Seq<StatusItemView>,
    j: int,
)
    requires
        is_tree_of(after, records, collapsed_paths(before).to_set()),
        0 <= j < after.len(),
    ensures
        is_collapsed(after[j]) <==> is_directory_of(records, after[j].full_path) && exists|i: int|
            0 <= i < before.len() && is_collapsed(#[trigger] before[i]) && before[i].full_path
                == after[j].full_path,
{
    let collapsed = collapsed_paths(before).to_set();
    assert(entry_fits(after[j], directories(records), records, collapsed));
    lemma_collapsed_paths_contains(before, after[j].full_path);
}

/// The tree of a change list is empty exactly if the list is.
pub proof fn lemma_tree_empty(
    entries: Seq<Entry>,
    records: Seq<StatusItemView>,
    collapsed: Set<Seq<char>>,
)
    requires
        is_tree_of(entries, records, collapsed),
    ensures
        (entries.len() == 0) == (records.len() == 0),
{
    if records.len() > 0 {
        assert(has_path(entries, records[0].path));
    }
    if entries.len() > 0 {
        assert(entry_fits(entries[0], directories(records), records, collapsed));
    }
}

/// A path is among the collapsed paths exactly if it is the path of a
/// collapsed directory.
pub proof fn lemma_collapsed_paths_contains(entries: Seq<Entry>, path: Seq<char>)
    ensures
        collapsed_paths(entries).contains(path) <==> exists|j: int|
            0 <= j < entries.len() && is_collapsed(#[trigger] entries[j]) && entries[j].full_path
                == path,
    decreases entries.len(),
{
    if entries.len() > 0 {
        let front = entries.drop_last();
        let last = entries.last();
        let rest = collapsed_paths(front);
        lemma_collapsed_paths_contains(front, path);
        if collapsed_paths(entries).contains(path) {
            let k = choose|k: int|
                0 <= k < collapsed_paths(entries).len() && collapsed_paths(entries)[k] == path;
            if is_collapsed(last) && k == rest.len() {
                assert(is_collapsed(entries[entries.len() - 1]));
            } else {
                assert(rest[k] == path);
                assert(rest.contains(path));
                let j = choose|j: int|
                    0 <= j < front.len() && is_collapsed(#[trigger] front[j]) && front[j].full_path
                        == path;
                assert(is_collapsed(entries[j]));
            }
        }
        if exists|j: int|
            0 <= j < entries.len() && is_collapsed(#[trigger] entries[j]) && entries[j].full_path
                == path {
            let j = choose|j: int|
                0 <= j < entries.len() && is_collapsed(#[trigger] entries[j])
                    && entries[j].full_path == path;
            if j == entries.len() - 1 {
                assert(collapsed_paths(entries)[rest.len() as int] == path);
            } else {
                assert(is_collapsed(front[j]));
                assert(rest.contains(path));
                let k = choose|k: int| 0 <= k < rest.len() && rest[k] == path;
                assert(collapsed_paths(entries)[k] == path);
            }
        }
    }
}

/// The entries of a tree, in order.
#[derive(Debug)]
pub struct FileTreeItems(pub Vec<FileTreeItem>);

impl View for FileTreeItems {
    type V = Seq<Entry>;

    open spec fn view(&self) -> Seq<Entry> {
        self.0@.map_values(|e: FileTreeItem| e@)
    }
}

impl Default for FileTreeItems {
    fn default() -> (r: Self)
        ensures
            r@.len() == 0,
    {
        FileTreeItems(Vec::new())
    }
}

impl FileTreeItems {
    /// The entries, for reading.
    pub fn items(&self) -> (r: &Vec<FileTreeItem>)
        ensures
            r == &self.0,
    {
        &self.0
    }

    /// The number of entries.
    pub fn len(&self) -> (r: usize)
        ensures
            r == self@.len(),
    {
        self.0.len()
    }

    /// The tree of a change list, with every entry visible: one entry for
    /// each listed path and for each directory above one, sorted by path;
    /// a directory is collapsed exactly if its path is among `collapsed`.
    pub fn new(list: &[StatusItem], collapsed: &Vec<String>) -> (r: Self)
        ensures
            is_tree_of(r@, records_view(list@), string_views(collapsed@).to_set()),
            all_visible(r@),
    {
        let mut nodes = FileTreeItems(Vec::new());
        let ghost records = records_view(list@);
        let ghost cset = string_views(collapsed@).to_set();
        let mut n: usize = 0;
        while n < list.len()
            invariant
                n <= list@.len(),
                records == records_view(list@),
                cset == string_views(collapsed@).to_set(),
                is_tree_over(nodes@, directories(records.take(n as int)), records.take(n as int), cset),
                all_visible(nodes@),
            decreases list@.len() - n,
        {
            let item = &list[n];
            let ghost seen = records.take(n as int);
            nodes.push_dirs(item.path.as_str(), collapsed, Ghost(directories(seen)), Ghost(seen));
            nodes.insert_file(
                item,
                Ghost(
                    directories(seen).union(
                        ancestors_before(item.path@, item.path@.len() as int),
                    ),
                ),
                Ghost(seen),
                Ghost(cset),
            );
            proof {
                lemma_directories_push(seen, item@);
                assert(seen.push(item@) =~= records.take(n + 1));
            }
            n = n + 1;
        }
        assert(records.take(n as int) =~= records);
        nodes
    }

    fn contains_path(collapsed: &Vec<String>, path: &String) -> (r: bool)
        ensures
            r == string_views(collapsed@).to_set().contains(path@),
    {
        let ghost paths = string_views(collapsed@);
        let mut i: usize = 0;
        while i < collapsed.len()
            invariant
                i <= collapsed@.len(),
                paths == string_views(collapsed@),
                forall|k: int| 0 <= k < i ==> paths[k] != path@,
            decreases collapsed@.len() - i,
        {
            if collapsed[i] == *path {
                assert(paths[i as int] == path@);
                return true;
            }
            i = i + 1;
        }
        false
    }

    fn insert_dir(
        &mut self,
        dir: String,
        collapsed: &Vec<String>,
        Ghost(dirs): Ghost<Set<Seq<char>>>,
        Ghost(records): Ghost<Seq<StatusItemView>>,
    )
        requires
            is_tree_over(old(self)@, dirs, records, string_views(collapsed@).to_set()),
            all_visible(old(self)@),
        ensures
            is_tree_over(
                final(self)@,
                dirs.insert(dir@),
                records,
                string_views(collapsed@).to_set(),
            ),
            all_visible(final(self)@),
    {
        let ghost before = self@;
        let ghost cset = string_views(collapsed@).to_set();
        let ghost d = dir@;
        let ghost more = dirs.insert(d);
        let pos = self.position_of(dir.as_str());
        proof {
            lemma_split_finds(before, d, pos as int);
        }
        if pos < self.0.len() && !comes_before(dir.as_str(), self.0[pos].info.full_path.as_str()) {
            if let FileTreeItemKind::File(_) = self.0[pos].kind {
                let c = Self::contains_path(collapsed, &dir);
                self.0[pos].kind = FileTreeItemKind::Path(PathCollapsed(c));
                proof {
                    let e = Entry { kind: EntryKind::Path { collapsed: c }, ..before[pos as int] };
                    assert(self@ =~= before.update(pos as int, e));
                    assert forall|i: int, j: int| 0 <= i < j < self@.len() implies precedes(
                        #[trigger] self@[i].full_path,
                        #[trigger] self@[j].full_path,
                    ) by {
                        assert(precedes(before[i].full_path, before[j].full_path));
                    }
                    assert forall|p: Seq<char>| has_path(before, p) implies has_path(self@, p) by {
                        let j = choose|j: int| has_path_at(before, p, j);
                        assert(has_path_at(self@, p, j));
                    }
                    assert forall|j: int| 0 <= j < self@.len() implies entry_fits(
                        #[trigger] self@[j],
                        more,
                        records,
                        cset,
                    ) by {
                        if j != pos {
                            assert(entry_fits(before[j], dirs, records, cset));
                            assert(precedes(before[j].full_path, d) || precedes(
                                d,
                                before[j].full_path,
                            )) by {
                                if j < pos {
                                    assert(precedes(before[j].full_path, before[pos as int].full_path));
                                } else {
                                    assert(precedes(before[pos as int].full_path, before[j].full_path));
                                }
                            }
                            lemma_precedes_irreflexive(d);
                        }
                    }
                    assert forall|i: int| 0 <= i < records.len() implies has_path(
                        self@,
                        #[trigger] records[i].path,
                    ) by {
                        assert(has_path(before, records[i].path));
                    }
                    assert forall|x: Seq<char>| #[trigger] more.contains(x) implies has_path(
                        self@,
                        x,
                    ) by {
                        if x == d {
                            assert(has_path_at(self@, d, pos as int));
                        } else {
                            assert(dirs.contains(x));
                            assert(has_path(before, x));
                        }
                    }
                }
            } else {
                proof {
                    assert(entry_fits(before[pos as int], dirs, records, cset));
                    assert(dirs.contains(d));
                    assert(more =~= dirs);
                }
            }
        } else {
            let c = Self::contains_path(collapsed, &dir);
            let item = FileTreeItem {
                info: TreeItemInfo { visible: true, full_path: dir },
                kind: FileTreeItemKind::Path(PathCollapsed(c)),
            };
            let ghost e = item@;
            self.0.insert(pos, item);
            proof {
                assert(self@ =~= before.insert(pos as int, e));
                lemma_insert_keeps_sorted(before, pos as int, e);
                assert forall|j: int| 0 <= j < self@.len() implies entry_fits(
                    #[trigger] self@[j],
                    more,
                    records,
                    cset,
                ) by {
                    if j != pos {
                        let k = if j < pos {
                            j
                        } else {
                            j - 1
                        };
                        assert(self@[j] == before[k]);
                        assert(entry_fits(before[k], dirs, records, cset));
                        assert(has_path_at(before, before[k].full_path, k));
                    }
                }
                assert forall|i: int| 0 <= i < records.len() implies has_path(
                    self@,
                    #[trigger] records[i].path,
                ) by {
                    assert(has_path(before, records[i].path));
                }
                assert forall|x: Seq<char>| #[trigger] more.contains(x) implies has_path(
                    self@,
                    x,
                ) by {
                    if x != d {
                        assert(dirs.contains(x));
                        assert(has_path(before, x));
                    }
                }
            }
        }
    }

    fn insert_file(
        &mut self,
        item: &StatusItem,
        Ghost(dirs): Ghost<Set<Seq<char>>>,
        Ghost(records): Ghost<Seq<StatusItemView>>,
        Ghost(cset): Ghost<Set<Seq<char>>>,
    )
        requires
            is_tree_over(old(self)@, dirs, records, cset),
            all_visible(old(self)@),
        ensures
            is_tree_over(final(self)@, dirs, records.push(item@), cset),
            all_visible(final(self)@),
    {
        let ghost before = self@;
        let ghost path = item.path@;
        let ghost more = records.push(item@);
        let pos = self.position_of(item.path.as_str());
        proof {
            lemma_split_finds(before, path, pos as int);
            assert forall|e: Entry| entry_fits(e, dirs, records, cset) implies entry_fits(
                e,
                dirs,
                more,
                cset,
            ) by {
                if !dirs.contains(e.full_path) {
                    let i = choose|i: int| #[trigger]
                        first_listed(records, e.full_path, i) && e.kind == (EntryKind::File {
                            item: records[i],
                        });
                    assert forall|k: int| 0 <= k < i implies (#[trigger] more[k]).path
                        != e.full_path by {
                        assert(records[k].path != e.full_path);
                    }
                    assert(first_listed(more, e.full_path, i));
                }
            }
        }
        if pos < self.0.len() && !comes_before(
            item.path.as_str(),
            self.0[pos].info.full_path.as_str(),
        ) {
            proof {
                assert forall|j: int| 0 <= j < before.len() implies entry_fits(
                    #[trigger] before[j],
                    dirs,
                    more,
                    cset,
                ) by {
                    assert(entry_fits(before[j], dirs, records, cset));
                }
                assert forall|i: int| 0 <= i < more.len() implies has_path(
                    before,
                    #[trigger] more[i].path,
                ) by {
                    if i < records.len() {
                        assert(has_path(before, records[i].path));
                    }
                }
            }
        } else {
            let node = FileTreeItem {
                info: TreeItemInfo { visible: true, full_path: item.path.clone() },
                kind: FileTreeItemKind::File(item.clone()),
            };
            let ghost e = node@;
            self.0.insert(pos, node);
            proof {
                assert(self@ =~= before.insert(pos as int, e));
                lemma_insert_keeps_sorted(before, pos as int, e);
                assert(!dirs.contains(path));
                assert forall|k: int| 0 <= k < records.len() implies (#[trigger] more[k]).path
                    != path by {
                    assert(has_path(before, records[k].path));
                }
                assert(first_listed(more, path, records.len() as int));
                assert(entry_fits(e, dirs, more, cset));
                assert forall|j: int| 0 <= j < self@.len() implies entry_fits(
                    #[trigger] self@[j],
                    dirs,
                    more,
                    cset,
                ) by {
                    if j != pos {
                        let k = if j < pos {
                            j
                        } else {
                            j - 1
                        };
                        assert(self@[j] == before[k]);
                        assert(entry_fits(before[k], dirs, records, cset));
                    }
                }
                assert forall|i: int| 0 <= i < more.len() implies has_path(
                    self@,
                    #[trigger] more[i].path,
                ) by {
                    if i < records.len() {
                        assert(has_path(before, records[i].path));
                    }
                }
                assert forall|x: Seq<char>| #[trigger] dirs.contains(x) implies has_path(
                    self@,
                    x,
                ) by {
                    assert(has_path(before, x));
                }
            }
        }
    }

    fn push_dirs(
        &mut self,
        path: &str,
        collapsed: &Vec<String>,
        Ghost(dirs): Ghost<Set<Seq<char>>>,
        Ghost(records): Ghost<Seq<StatusItemView>>,
    )
        requires
            is_tree_over(old(self)@, dirs, records, string_views(collapsed@).to_set()),
            all_visible(old(self)@),
        ensures
            is_tree_over(
                final(self)@,
                dirs.union(ancestors_before(path@, path@.len() as int)),
                records,
                string_views(collapsed@).to_set(),
            ),
            all_visible(final(self)@),
    {
        let chars = chars_of(path);
        let ghost cset = string_views(collapsed@).to_set();
        let mut k: usize = 1;
        assert(dirs.union(ancestors_before(path@, 1)) =~= dirs);
        while k < chars.len()
            invariant
                chars@ == path@,
                1 <= k,
                cset == string_views(collapsed@).to_set(),
                is_tree_over(self@, dirs.union(ancestors_before(path@, k as int)), records, cset),
                all_visible(self@),
            decreases chars@.len() - k,
        {
            let ghost so_far = dirs.union(ancestors_before(path@, k as int));
            if chars[k] == SEPARATOR {
                let dir = path.substring_char(0, k).to_owned();
                proof {
                    assert forall|x: Seq<char>|
                        so_far.insert(dir@).contains(x) <==> dirs.union(
                            ancestors_before(path@, k + 1),
                        ).contains(x) by {
                        lemma_ancestor_of_length(path@, x, k as int);
                    }
                    assert(so_far.insert(dir@) =~= dirs.union(ancestors_before(path@, k + 1)));
                }
                self.insert_dir(dir, collapsed, Ghost(so_far), Ghost(records));
            } else {
                proof {
                    assert forall|x: Seq<char>|
                        so_far.contains(x) <==> dirs.union(
                            ancestors_before(path@, k + 1),
                        ).contains(x) by {
                        lemma_ancestor_of_length(path@, x, k as int);
                    }
                    assert(so_far =~= dirs.union(ancestors_before(path@, k + 1)));
                }
            }
            k = k + 1;
        }
        assert(dirs.union(ancestors_before(path@, k as int)) =~= dirs.union(
            ancestors_before(path@, path@.len() as int),
        ));
    }

    /// The position that parts the entries whose paths come before `path`
    /// from the others.
    pub fn position_of(&self, path: &str) -> (pos: usize)
        requires
            sorted(self@),
        ensures
            splits_at(self@, path@, pos as int),
    {
        let mut lo: usize = 0;
        let mut hi: usize = self.0.len();
        while lo < hi
            invariant
                sorted(self@),
                lo <= hi <= self@.len(),
                forall|i: int| 0 <= i < lo ==> precedes(#[trigger] self@[i].full_path, path@),
                forall|i: int|
                    hi <= i < self@.len() ==> !precedes(#[trigger] self@[i].full_path, path@),
            decreases hi - lo,
        {
            let mid = lo + (hi - lo) / 2;
            let ghost at_mid = self@[mid as int].full_path;
            if comes_before(self.0[mid].info.full_path.as_str(), path) {
                proof {
                    assert forall|i: int| 0 <= i < mid + 1 implies precedes(
                        #[trigger] self@[i].full_path,
                        path@,
                    ) by {
                        if i < mid {
                            assert(precedes(self@[i].full_path, at_mid));
                            lemma_precedes_transitive(self@[i].full_path, at_mid, path@);
                        }
                    }
                }
                lo = mid + 1;
            } else {
                proof {
                    assert forall|i: int| mid <= i < self@.len() implies !precedes(
                        #[trigger] self@[i].full_path,
                        path@,
                    ) by {
                        if i > mid && precedes(self@[i].full_path, path@) {
                            assert(precedes(at_mid, self@[i].full_path));
                            lemma_precedes_transitive(at_mid, self@[i].full_path, path@);
                        }
                    }
                }
                hi = mid;
            }
        }
        lo
    }

    /// The position of the entry with the path `path`, if there is one.
    pub fn find(&self, path: &str) -> (r: Option<usize>)
        requires
            sorted(self@),
        ensures
            match r {
                Some(j) => has_path_at(self@, path@, j as int),
                None => !has_path(self@, path@),
            },
    {
        let pos = self.position_of(path);
        proof {
            lemma_split_finds(self@, path@, pos as int);
        }
        if pos < self.0.len() && !comes_before(path, self.0[pos].info.full_path.as_str()) {
            Some(pos)
        } else {
            None
        }
    }

    /// Whether entry `index` is a directory whose collapse flag is set.
    pub fn is_collapsed_at(&self, index: usize) -> (r: bool)
        requires
            index < self@.len(),
        ensures
            r == is_collapsed(self@[index as int]),
    {
        match self.0[index].kind {
            FileTreeItemKind::Path(PathCollapsed(c)) => c,
            FileTreeItemKind::File(_) => false,
        }
    }

    /// The position of the nearest directory above `path`, looking back
    /// from `index`; 0 where no entry at or before `index` is one.
    pub fn find_parent_index(&self, path: &str, index: usize) -> (r: usize)
        requires
            index < self@.len(),
        ensures
            is_parent_index(self@, path@, index as int, r as int),
    {
        let mut i = index;
        loop
            invariant
                i <= index < self@.len(),
                forall|k: int| i < k <= index ==> !#[trigger] is_ancestor_at(self@, path@, k),
            decreases i,
        {
            let dir = self.0[i].info.full_path.as_str();
            if !dir.is_empty() && lies_below(path, dir) {
                return i;
            }
            if i == 0 {
                return 0;
            }
            i = i - 1;
        }
    }

    /// Sets the visibility of entry `index`.
    pub fn set_visible(&mut self, index: usize, visible: bool)
        requires
            index < old(self)@.len(),
        ensures
            final(self)@ == old(self)@.update(
                index as int,
                with_visible(old(self)@[index as int], visible),
            ),
    {
        self.0[index].info.visible = visible;
        assert(self@ =~= old(self)@.update(
            index as int,
            with_visible(old(self)@[index as int], visible),
        ));
    }

    /// Sets the collapse flag of entry `index`, if it is a directory.
    pub fn set_collapsed(&mut self, index: usize, collapsed: bool)
        requires
            index < old(self)@.len(),
        ensures
            final(self)@ == old(self)@.update(
                index as int,
                with_collapsed(old(self)@[index as int], collapsed),
            ),
    {
        if let FileTreeItemKind::Path(_) = self.0[index].kind {
            self.0[index].kind = FileTreeItemKind::Path(PathCollapsed(collapsed));
        }
        assert(self@ =~= old(self)@.update(
            index as int,
            with_collapsed(old(self)@[index as int], collapsed),
        ));
    }
}

} // verus!
