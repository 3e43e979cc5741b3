//! The tree of changed files with its cursor: rebuilding, moving the
//! selection, collapsing and expanding directories.

use crate::components::filetree::{
    ascending, lemma_collapsed_paths_ascending, below_collapsed, collapsed_paths, contiguous, contiguous_at, covered,
    lemma_below_in_run, lemma_covered_is_below_collapsed, has_path, has_path_at, heads_run, in_run, in_scope, is_collapsed,
    is_listed, is_parent_index, is_tree_of, lemma_same_paths_sorted, lemma_same_shape_covered,
    lemma_same_shape_tree, lemma_tree_empty, records_view, same_paths, same_shape, sorted,
    string_views, under, with_collapsed, with_visible, Entry, EntryKind, FileTreeItem,
    FileTreeItemKind, FileTreeItems, StatusItem, directories,
};
use crate::strings::{
    dir_prefix, is_below, lemma_below_prefix, lemma_below_transitive, lies_below, starts_with, with_separator,
};
use vstd::prelude::*;

verus! {

/// The entries of the tree and the row that the cursor is on.
#[derive(Debug)]
pub struct StatusTree {
    pub tree: FileTreeItems,
    pub selection: Option<usize>,
}

/// The four ways the cursor moves.
#[derive(Copy, Clone, Debug)]
pub enum MoveSelection {
    Up,
    Down,
    Left,
    Right,
}

/// Where a move ends and whether it changed an entry.
struct SelectionChange {
    new_index: usize,
    changes: bool,
}

impl SelectionChange {
    fn new(new_index: usize, changes: bool) -> (r: Self)
        ensures
            r.new_index == new_index,
            r.changes == changes,
    {
        Self { new_index, changes }
    }
}

/// The scope of a walk as a plain value.
pub open spec fn scope_of(prefix: Option<&str>) -> Option<Seq<char>> {
    match prefix {
        Some(p) => Some(p@),
        None => None,
    }
}

/// A walk from `start` that has come to entry `k` goes on beyond it: the
/// entry is covered by a collapsed directory, or lies in scope.
pub open spec fn passes(entries: Seq<Entry>, scope: Option<Seq<char>>, start: int, k: int) -> bool {
    covered(entries, scope, start, k) || in_scope(scope, entries[k].full_path)
}

/// A walk from `start` comes to entry `i` and sets it: with defaults it
/// sets every entry from `start` on; without, it ends at the first entry
/// that is neither covered nor in scope, and leaves that one as it is.
pub open spec fn walk_sets(
    entries: Seq<Entry>,
    scope: Option<Seq<char>>,
    start: int,
    set_defaults: bool,
    i: int,
) -> bool {
    &&& start <= i < entries.len()
    &&& set_defaults || forall|k: int| start <= k <= i ==> #[trigger] passes(entries, scope, start, k)
}

/// The visibility of entry `i` after a walk from `start`. An entry that a
/// collapsed directory covers is hidden; any other entry that the walk sets
/// is visible exactly if it lies in scope.
pub open spec fn walk_visible(
    entries: Seq<Entry>,
    scope: Option<Seq<char>>,
    start: int,
    set_defaults: bool,
    i: int,
) -> bool {
    if !walk_sets(entries, scope, start, set_defaults, i) {
        entries[i].visible
    } else if covered(entries, scope, start, i) {
        false
    } else {
        in_scope(scope, entries[i].full_path)
    }
}

/// The entries after a visibility walk from `start`: paths and kinds as
/// before, each visibility as `walk_visible` gives it.
pub open spec fn walked(
    entries: Seq<Entry>,
    scope: Option<Seq<char>>,
    start: int,
    set_defaults: bool,
) -> Seq<Entry> {
    Seq::new(
        entries.len(),
        |i: int| with_visible(entries[i], walk_visible(entries, scope, start, set_defaults, i)),
    )
}

/// The entries after the directory at `index` was collapsed under the name
/// `path`: its flag is set, and the unbroken run of entries below `path`
/// that begins right after it is hidden.
pub open spec fn collapsed_at(entries: Seq<Entry>, path: Seq<char>, index: int) -> Seq<Entry> {
    Seq::new(
        entries.len(),
        |j: int|
            if j == index {
                with_collapsed(entries[j], true)
            } else if index < j && in_run(entries, dir_prefix(path), index + 1, j) {
                with_visible(entries[j], false)
            } else {
                entries[j]
            },
    )
}

/// The entries after the directory at `index` was expanded under the name
/// `path`: its flag is cleared, then a walk without defaults, in the scope
/// of what lies below `path`, sets the entries that follow it.
pub open spec fn expanded_at(entries: Seq<Entry>, path: Seq<char>, index: int) -> Seq<Entry> {
    walked(
        entries.update(index, with_collapsed(entries[index], false)),
        Some(dir_prefix(path)),
        index + 1,
        false,
    )
}

/// `to` is where a step up or down from `from` ends: on the nearest visible
/// entry in that direction, or on `from` itself where there is none.
pub open spec fn is_step(entries: Seq<Entry>, from: int, up: bool, to: int) -> bool {
    if up {
        ||| {
            &&& 0 <= to < from
            &&& entries[to].visible
            &&& forall|k: int| to < k < from ==> !(#[trigger] entries[k]).visible
        }
        ||| {
            &&& to == from
            &&& forall|k: int| 0 <= k < from ==> !(#[trigger] entries[k]).visible
        }
    } else {
        ||| {
            &&& from < to < entries.len()
            &&& entries[to].visible
            &&& forall|k: int| from < k < to ==> !(#[trigger] entries[k]).visible
        }
        ||| {
            &&& to == from
            &&& forall|k: int| from < k < entries.len() ==> !(#[trigger] entries[k]).visible
        }
    }
}

/// No entry beyond `from` in the direction of a step is visible.
pub open spec fn none_visible_beyond(entries: Seq<Entry>, from: int, up: bool) -> bool {
    if up {
        forall|k: int| 0 <= k < from ==> !(#[trigger] entries[k]).visible
    } else {
        forall|k: int| from < k < entries.len() ==> !(#[trigger] entries[k]).visible
    }
}

/// The selection that a rebuild arrives at. An empty tree has none. Where
/// nothing was selected before, it is the first entry. Else it is the entry
/// with the path that was selected, if the tree has one, and otherwise the
/// old index, or the last entry where the tree has become shorter.
pub open spec fn reconciled(
    entries: Seq<Entry>,
    last: Option<(Seq<char>, int)>,
    selection: Option<usize>,
) -> bool {
    if entries.len() == 0 {
        selection is None
    } else {
        &&& selection matches Some(j)
        &&& j < entries.len()
        &&& match last {
            None => j == 0,
            Some((path, index)) => if has_path(entries, path) {
                entries[j as int].full_path == path
            } else if index < entries.len() {
                j == index
            } else {
                j == entries.len() - 1
            },
        }
    }
}

/// The entry is a directory that is not collapsed.
pub open spec fn is_expanded(e: Entry) -> bool {
    e.kind == (EntryKind::Path { collapsed: false })
}

/// What a move in direction `dir` makes of the entries and of a selection
/// at `at`: the entries `after`, the selection `to`, and whether anything
/// changed. Up and down step to the nearest visible entry. Left collapses an
/// expanded directory and otherwise goes to the nearest directory above.
/// Right expands a collapsed directory and otherwise does nothing.
pub open spec fn is_move(
    entries: Seq<Entry>,
    at: int,
    dir: MoveSelection,
    after: Seq<Entry>,
    to: int,
    changed: bool,
) -> bool {
    let e = entries[at];
    match dir {
        MoveSelection::Up => {
            &&& after == entries
            &&& is_step(entries, at, true, to)
            &&& changed == (to != at)
        },
        MoveSelection::Down => {
            &&& after == entries
            &&& is_step(entries, at, false, to)
            &&& changed == (to != at)
        },
        MoveSelection::Left => if is_expanded(e) {
            &&& after == collapsed_at(entries, e.full_path, at)
            &&& to == at
            &&& changed
        } else {
            &&& after == entries
            &&& is_parent_index(entries, e.full_path, at, to)
            &&& changed == (to != at)
        },
        MoveSelection::Right => if is_collapsed(e) {
            &&& after == expanded_at(entries, e.full_path, at)
            &&& to == at
            &&& changed
        } else {
            &&& after == entries
            &&& to == at
            &&& !changed
        },
    }
}

/// A visibility walk changes no path and no kind.
pub proof fn lemma_walked_same_shape(
    entries: Seq<Entry>,
    scope: Option<Seq<char>>,
    start: int,
    set_defaults: bool,
)
    ensures
        same_shape(entries, walked(entries, scope, start, set_defaults)),
{
}

/// Collapsing a directory changes no path.
pub proof fn lemma_collapsed_same_paths(entries: Seq<Entry>, path: Seq<char>, index: int)
    ensures
        same_paths(entries, collapsed_at(entries, path, index)),
{
}

/// Expanding a directory changes no path.
pub proof fn lemma_expanded_same_paths(entries: Seq<Entry>, path: Seq<char>, index: int)
    requires
        0 <= index < entries.len(),
    ensures
        same_paths(entries, expanded_at(entries, path, index)),
{
    let cleared = entries.update(index, with_collapsed(entries[index], false));
    lemma_walked_same_shape(cleared, Some(dir_prefix(path)), index + 1, false);
}

/// Collapsing a directory under its own path hides exactly what lies below
/// it: every entry whose path begins with the directory's path and a
/// separator is hidden, every other entry keeps its visibility, and but for
/// the directory's flag no path and no kind changes. This holds where what
/// lies below the directory follows it without a gap.
pub proof fn lemma_collapse_hides_subtree(entries: Seq<Entry>, index: int)
    requires
        sorted(entries),
        0 <= index < entries.len(),
        contiguous_at(entries, index),
    ensures
        ({
            let dir = entries[index].full_path;
            let after = collapsed_at(entries, dir, index);
            &&& after.len() == entries.len()
            &&& after[index] == with_collapsed(entries[index], true)
            &&& forall|j: int|
                0 <= j < entries.len() && j != index ==> (#[trigger] after[j]).kind
                    == entries[j].kind
            &&& forall|j: int|
                0 <= j < entries.len() ==> (#[trigger] after[j]).full_path == entries[j].full_path
            &&& forall|j: int|
                0 <= j < entries.len() ==> (#[trigger] after[j]).visible == (if is_below(
                    entries[j].full_path,
                    dir,
                ) {
                    false
                } else {
                    entries[j].visible
                })
        }),
{
    let dir = entries[index].full_path;
    let prefix = dir_prefix(dir);
    let after = collapsed_at(entries, dir, index);
    assert forall|j: int| 0 <= j < entries.len() implies (#[trigger] after[j]).visible == (if is_below(
        entries[j].full_path,
        dir,
    ) {
        false
    } else {
        entries[j].visible
    }) by {
        if is_below(entries[j].full_path, dir) {
            lemma_below_in_run(entries, index, j);
        } else if index < j && in_run(entries, prefix, index + 1, j) {
            assert(under(entries, prefix, j));
        }
    }
}

/// Expanding a directory that was just collapsed shows what lies below it
/// again, but for what lies below a directory further down that is still
/// collapsed: an entry below the directory is visible exactly if no
/// collapsed directory after it lies above the entry. Every other entry has
/// the visibility it had before the two steps, and no path changes. This
/// holds where what lies below an entry follows it without a gap.
pub proof fn lemma_expand_after_collapse(entries: Seq<Entry>, index: int)
    requires
        sorted(entries),
        0 <= index < entries.len(),
        contiguous(entries),
    ensures
        ({
            let dir = entries[index].full_path;
            let after = expanded_at(collapsed_at(entries, dir, index), dir, index);
            &&& after.len() == entries.len()
            &&& after[index].kind == with_collapsed(entries[index], false).kind
            &&& forall|j: int|
                0 <= j < entries.len() && j != index ==> (#[trigger] after[j]).kind
                    == entries[j].kind
            &&& forall|j: int|
                0 <= j < entries.len() ==> (#[trigger] after[j]).full_path == entries[j].full_path
            &&& forall|j: int|
                0 <= j < entries.len() ==> (#[trigger] after[j]).visible == (if is_below(
                    entries[j].full_path,
                    dir,
                ) {
                    !below_collapsed(entries, index + 1, j)
                } else {
                    entries[j].visible
                })
        }),
{
    let dir = entries[index].full_path;
    let prefix = dir_prefix(dir);
    let scope = Some(prefix);
    let start = index + 1;
    let hidden = collapsed_at(entries, dir, index);
    let cleared = hidden.update(index, with_collapsed(hidden[index], false));
    let after = expanded_at(hidden, dir, index);
    assert(contiguous_at(entries, index));
    assert forall|j: int| 0 <= j < entries.len() implies (#[trigger] after[j]).visible == (if is_below(
        entries[j].full_path,
        dir,
    ) {
        !below_collapsed(entries, index + 1, j)
    } else {
        entries[j].visible
    }) by {
        if is_below(entries[j].full_path, dir) {
            lemma_below_in_run(entries, index, j);
            assert forall|k: int| start <= k <= j implies #[trigger] passes(
                cleared,
                scope,
                start,
                k,
            ) by {
                assert(under(entries, prefix, k));
            }
            assert(walk_sets(cleared, scope, start, false, j));
            lemma_same_shape_covered(entries, cleared, scope, start, j);
            lemma_covered_is_below_collapsed(entries, start, j);
            if covered(entries, None, start, j) {
                let d = choose|d: int| start <= d < j && #[trigger] heads_run(entries, None, d, j);
                assert(under(entries, prefix, d));
                assert(heads_run(entries, scope, d, j));
            }
            if covered(entries, scope, start, j) {
                let d = choose|d: int| start <= d < j && #[trigger] heads_run(entries, scope, d, j);
                assert(heads_run(entries, None, d, j));
            }
        } else if j > index {
            if in_run(entries, prefix, index + 1, j) {
                assert(under(entries, prefix, j));
            }
            if covered(cleared, scope, start, j) {
                let d = choose|d: int| start <= d < j && #[trigger] heads_run(cleared, scope, d, j);
                assert(under(cleared, dir_prefix(cleared[d].full_path), j));
                lemma_below_prefix(
                    entries[j].full_path,
                    cleared[d].full_path,
                    prefix,
                );
            }
            if walk_sets(cleared, scope, start, false, j) {
                assert(passes(cleared, scope, start, j));
            }
        }
    }
}

impl Default for StatusTree {
    fn default() -> (r: Self)
        ensures
            r.tree@.len() == 0,
            r.selection is None,
            r.wf(),
    {
        StatusTree { tree: FileTreeItems::default(), selection: None }
    }
}

impl StatusTree {
    /// The selection is on an entry with the path `path`.
    pub open spec fn selected_path_is(&self, path: Seq<char>) -> bool {
        &&& self.selection matches Some(j)
        &&& j < self.tree@.len()
        &&& self.tree@[j as int].full_path == path
    }

    /// The path and the index of the selected entry.
    pub open spec fn last_selected(&self) -> Option<(Seq<char>, int)> {
        match self.selection {
            Some(i) => Some((self.tree@[i as int].full_path, i as int)),
            None => None,
        }
    }

    /// Replaces the entries by the tree of a new change list. The
    /// directories that were collapsed stay collapsed, the selection stays
    /// on the path it was on where the new tree has that path, and every
    /// entry is visible exactly if no collapsed directory covers it.
    pub fn update(&mut self, list: &[StatusItem])
        requires
            old(self).selection matches Some(i) ==> i < old(self).tree@.len(),
        ensures
            final(self).wf(),
            is_tree_of(
                final(self).tree@,
                records_view(list@),
                collapsed_paths(old(self).tree@).to_set(),
            ),
            forall|i: int|
                0 <= i < final(self).tree@.len() ==> (#[trigger] final(self).tree@[i]).visible
                    == !covered(final(self).tree@, None, 0, i),
            reconciled(final(self).tree@, old(self).last_selected(), final(self).selection),
            (final(self).tree@.len() == 0) == (list@.len() == 0),
            (final(self).selection is None) == (list@.len() == 0),
            match old(self).last_selected() {
                Some((path, _)) => is_listed(records_view(list@), path) ==> final(self).selected_path_is(path),
                None => true,
            },
    {
        let ghost before = self.tree@;
        let ghost last = self.last_selected();
        let ghost records = records_view(list@);
        let last_collapsed = self.all_collapsed();
        let ghost cset = collapsed_paths(before).to_set();
        let last_selection = match self.selected_item() {
            Some(e) => Some(e.info.full_path),
            None => None,
        };
        let last_selection_index = match self.selection {
            Some(i) => i,
            None => 0,
        };
        self.tree = FileTreeItems::new(list, &last_collapsed);
        let ghost built = self.tree@;
        let first = if self.tree.len() > 0 {
            Some(0usize)
        } else {
            None
        };
        self.selection = match &last_selection {
            Some(path) => match self.find_last_selection(path.as_str(), last_selection_index) {
                Some(i) => Some(i),
                None => first,
            },
            None => first,
        };
        assert(reconciled(built, last, self.selection));
        self.update_visibility(None, 0, true);
        proof {
            let after = self.tree@;
            lemma_walked_same_shape(built, None, 0, true);
            lemma_same_shape_tree(built, after, directories(records), records, cset);
            lemma_tree_empty(after, records, cset);
            assert forall|i: int| 0 <= i < after.len() implies (#[trigger] after[i]).visible
                == !covered(after, None, 0, i) by {
                lemma_same_shape_covered(built, after, None, 0, i);
            }
            if let Some((p, _)) = last {
                if has_path(built, p) {
                    let j = choose|j: int| has_path_at(built, p, j);
                    assert(has_path_at(after, p, j));
                }
                if has_path(after, p) {
                    let j = choose|j: int| has_path_at(after, p, j);
                    assert(built[j].full_path == after[j].full_path);
                    assert(has_path_at(built, p, j));
                }
            }
            if let Some((p, _)) = last {
                if is_listed(records, p) {
                    let k = choose|k: int| 0 <= k < records.len() && (#[trigger] records[k]).path == p;
                    assert(has_path(after, records[k].path));
                }
            }
        }
    }

    /// Moves the cursor. Returns whether the selection moved or a
    /// directory was collapsed or expanded.
    pub fn move_selection(&mut self, dir: MoveSelection) -> (changed: bool)
        requires
            old(self).wf(),
        ensures
            final(self).wf(),
            match old(self).selection {
                Some(at) => final(self).selection matches Some(to) && is_move(
                    old(self).tree@,
                    at as int,
                    dir,
                    final(self).tree@,
                    to as int,
                    changed,
                ),
                None => !changed && final(self).selection is None && final(self).tree@ == old(self).tree@,
            },
            (dir is Up || dir is Down) && changed ==> (final(self).selection matches Some(to)
                && final(self).tree@[to as int].visible),
            (dir is Up || dir is Down) ==> final(self).tree@ == old(self).tree@,
            match old(self).selection {
                Some(at) => (dir is Up || dir is Down) && none_visible_beyond(
                    old(self).tree@,
                    at as int,
                    dir is Up,
                ) ==> !changed && final(self).selection == old(self).selection,
                None => true,
            },
    {
        if let Some(selection) = self.selection {
            let ghost before = self.tree@;
            let selection_change = match dir {
                MoveSelection::Up => self.selection_updown(selection, true),
                MoveSelection::Down => self.selection_updown(selection, false),
                MoveSelection::Left => self.selection_left(selection),
                MoveSelection::Right => self.selection_right(selection),
            };
            let changed = selection_change.new_index != selection;
            self.selection = Some(selection_change.new_index);
            proof {
                let e = before[selection as int];
                lemma_collapsed_same_paths(before, e.full_path, selection as int);
                lemma_expanded_same_paths(before, e.full_path, selection as int);
                lemma_same_paths_sorted(before, self.tree@);
            }
            changed || selection_change.changes
        } else {
            false
        }
    }

    /// Where the selection goes in rebuilt entries: to the entry with the
    /// path that was selected, or else to the old index, clamped to the
    /// last entry.
    fn find_last_selection(&self, last_selection: &str, last_index: usize) -> (r: Option<usize>)
        requires
            sorted(self.tree@),
        ensures
            reconciled(self.tree@, Some((last_selection@, last_index as int)), r),
            (r is None) == (self.tree@.len() == 0),
    {
        if self.is_empty() {
            return None;
        }
        if let Some(i) = self.tree.find(last_selection) {
            return Some(i);
        }
        let last = self.tree.len() - 1;
        if last_index < last {
            Some(last_index)
        } else {
            Some(last)
        }
    }

    /// Expands the selected entry if it is a collapsed directory.
    fn selection_right(&mut self, current_selection: usize) -> (r: SelectionChange)
        requires
            current_selection < old(self).tree@.len(),
        ensures
            final(self).selection == old(self).selection,
            is_move(
                old(self).tree@,
                current_selection as int,
                MoveSelection::Right,
                final(self).tree@,
                r.new_index as int,
                r.changes,
            ),
    {
        if self.tree.is_collapsed_at(current_selection) {
            let item_path = self.tree.0[current_selection].info.full_path.clone();
            self.expand(item_path.as_str(), current_selection);
            return SelectionChange::new(current_selection, true);
        }
        SelectionChange::new(current_selection, false)
    }

    /// Collapses the selected entry if it is an expanded directory; from
    /// any other entry goes to the nearest directory above it.
    fn selection_left(&mut self, current_selection: usize) -> (r: SelectionChange)
        requires
            current_selection < old(self).tree@.len(),
        ensures
            final(self).selection == old(self).selection,
            r.changes == is_expanded(old(self).tree@[current_selection as int]),
            is_move(
                old(self).tree@,
                current_selection as int,
                MoveSelection::Left,
                final(self).tree@,
                r.new_index as int,
                r.changes || r.new_index != current_selection,
            ),
    {
        let expanded = match self.tree.0[current_selection].kind {
            FileTreeItemKind::Path(c) => !c.0,
            FileTreeItemKind::File(_) => false,
        };
        if expanded {
            let item_path = self.tree.0[current_selection].info.full_path.clone();
            self.collapse(item_path.as_str(), current_selection);
            SelectionChange::new(current_selection, true)
        } else {
            let parent = self.tree.find_parent_index(
                self.tree.0[current_selection].info.full_path.as_str(),
                current_selection,
            );
            SelectionChange::new(parent, false)
        }
    }

    /// The entries are sorted, and the selection is an index into them,
    /// absent exactly when there is no entry.
    pub open spec fn wf(&self) -> bool {
        &&& sorted(self.tree@)
        &&& self.selection is None <==> self.tree@.len() == 0
        &&& self.selection matches Some(i) ==> i < self.tree@.len()
    }

    /// Whether the tree has no entry.
    pub fn is_empty(&self) -> (r: bool)
        ensures
            r == (self.tree@.len() == 0),
    {
        self.tree.len() == 0
    }

    /// A copy of the selected entry.
    pub fn selected_item(&self) -> (r: Option<FileTreeItem>)
        requires
            self.selection matches Some(i) ==> i < self.tree@.len(),
        ensures
            match self.selection {
                Some(i) => r matches Some(e) && e@ == self.tree@[i as int],
                None => r is None,
            },
    {
        match self.selection {
            Some(i) => Some(self.tree.0[i].clone()),
            None => None,
        }
    }

    /// The paths of the collapsed directories, in the order of the entries:
    /// in a sorted tree strictly ascending, so that none occurs twice.
    pub fn all_collapsed(&self) -> (r: Vec<String>)
        ensures
            string_views(r@) == collapsed_paths(self.tree@),
            sorted(self.tree@) ==> ascending(string_views(r@)),
    {
        proof {
            if sorted(self.tree@) {
                lemma_collapsed_paths_ascending(self.tree@);
            }
        }
        let mut res: Vec<String> = Vec::new();
        let len = self.tree.len();
        let mut i: usize = 0;
        while i < len
            invariant
                len == self.tree@.len(),
                i <= len,
                string_views(res@) == collapsed_paths(self.tree@.take(i as int)),
            decreases len - i,
        {
            proof {
                assert(self.tree@.take(i + 1).drop_last() =~= self.tree@.take(i as int));
            }
            if self.tree.is_collapsed_at(i) {
                let ghost before = res@;
                res.push(self.tree.0[i].info.full_path.clone());
                assert(string_views(res@) =~= string_views(before).push(
                    self.tree@[i as int].full_path,
                ));
            }
            i = i + 1;
        }
        assert(self.tree@.take(len as int) =~= self.tree@);
        res
    }

    /// Whether entry `idx` is visible.
    pub fn is_visible_index(&self, idx: usize) -> (r: bool)
        requires
            idx < self.tree@.len(),
        ensures
            r == self.tree@[idx as int].visible,
    {
        self.tree.0[idx].info.visible
    }

    /// Steps from entry to entry until one is visible; gives up at either
    /// end of the tree and stays where it was.
    fn selection_updown(&self, current_index: usize, up: bool) -> (r: SelectionChange)
        requires
            current_index < self.tree@.len(),
        ensures
            is_step(self.tree@, current_index as int, up, r.new_index as int),
            !r.changes,
    {
        let mut new_index = current_index;
        let items_max = self.tree.len() - 1;
        loop
            invariant
                items_max + 1 == self.tree@.len(),
                current_index <= items_max,
                new_index <= items_max,
                up ==> new_index <= current_index,
                up ==> forall|k: int|
                    new_index <= k < current_index ==> !(#[trigger] self.tree@[k]).visible,
                !up ==> current_index <= new_index,
                !up ==> forall|k: int|
                    current_index < k <= new_index ==> !(#[trigger] self.tree@[k]).visible,
            decreases
                    if up {
                        new_index as int
                    } else {
                        items_max - new_index
                    },
        {
            let next = if up {
                if new_index > 0 {
                    new_index - 1
                } else {
                    0
                }
            } else {
                if new_index < items_max {
                    new_index + 1
                } else {
                    items_max
                }
            };
            if self.is_visible_index(next) {
                return SelectionChange::new(next, false);
            }
            if next == 0 || next == items_max {
                return SelectionChange::new(current_index, false);
            }
            new_index = next;
        }
    }

    /// Collapses the directory at `index` under the name `path`.
    pub fn collapse(&mut self, path: &str, index: usize)
        requires
            index < old(self).tree@.len(),
        ensures
            final(self).tree@ == collapsed_at(old(self).tree@, path@, index as int),
            final(self).selection == old(self).selection,
            old(self).wf() ==> final(self).wf(),
    {
        proof {
            lemma_collapsed_same_paths(self.tree@, path@, index as int);
            if sorted(self.tree@) {
                lemma_same_paths_sorted(self.tree@, collapsed_at(self.tree@, path@, index as int));
            }
        }
        let ghost before = self.tree@;
        let ghost prefix = dir_prefix(path@);
        self.tree.set_collapsed(index, true);
        let len = self.tree.len();
        let mut i = index + 1;
        while i < len
            invariant
                len == before.len(),
                self.tree@.len() == len,
                before == old(self).tree@,
                prefix == dir_prefix(path@),
                self.selection == old(self).selection,
                index < i <= len,
                in_run(before, prefix, index + 1, i - 1),
                forall|j: int|
                    0 <= j < i ==> self.tree@[j] == collapsed_at(before, path@, index as int)[j],
                forall|j: int| i <= j < len ==> self.tree@[j] == before[j],
            decreases len - i,
        {
            if lies_below(self.tree.0[i].info.full_path.as_str(), path) {
                assert(under(before, prefix, i as int));
                self.tree.set_visible(i, false);
            } else {
                assert(!under(before, prefix, i as int));
                assert(self.tree@ =~= collapsed_at(before, path@, index as int));
                return;
            }
            i = i + 1;
        }
        assert(self.tree@ =~= collapsed_at(before, path@, index as int));
    }

    /// Expands the directory at `current_index` under the name `path`.
    /// Directories below it keep their own flags, and what they cover is
    /// hidden.
    pub fn expand(&mut self, path: &str, current_index: usize)
        requires
            current_index < old(self).tree@.len(),
        ensures
            final(self).tree@ == expanded_at(old(self).tree@, path@, current_index as int),
            final(self).selection == old(self).selection,
            old(self).wf() ==> final(self).wf(),
    {
        proof {
            lemma_expanded_same_paths(self.tree@, path@, current_index as int);
            if sorted(self.tree@) {
                lemma_same_paths_sorted(
                    self.tree@,
                    expanded_at(self.tree@, path@, current_index as int),
                );
            }
        }
        self.tree.set_collapsed(current_index, false);
        if current_index < self.tree.len() - 1 {
            let prefix = with_separator(path);
            self.update_visibility(Some(prefix.as_str()), current_index + 1, false);
        } else {
            assert(self.tree@ =~= expanded_at(old(self).tree@, path@, current_index as int));
        }
    }

    /// Walks the entries from `start_idx` and sets their visibility. A
    /// collapsed directory within the scope stays visible itself and covers
    /// the unbroken run of entries below it, which the walk hides. With
    /// `set_defaults` the walk also hides what is out of scope; without, it
    /// ends at the first entry out of scope.
    pub fn update_visibility(&mut self, prefix: Option<&str>, start_idx: usize, set_defaults: bool)
        ensures
            final(self).tree@ == walked(
                old(self).tree@,
                scope_of(prefix),
                start_idx as int,
                set_defaults,
            ),
            final(self).selection == old(self).selection,
            old(self).wf() ==> final(self).wf(),
    {
        proof {
            lemma_walked_same_shape(
                self.tree@,
                scope_of(prefix),
                start_idx as int,
                set_defaults,
            );
            if sorted(self.tree@) {
                lemma_same_paths_sorted(
                    self.tree@,
                    walked(self.tree@, scope_of(prefix), start_idx as int, set_defaults),
                );
            }
        }
        let ghost before = self.tree@;
        let ghost scope = scope_of(prefix);
        let ghost start = start_idx as int;
        let len = self.tree.len();
        if start_idx >= len {
            assert(self.tree@ =~= walked(before, scope, start, set_defaults));
            return;
        }
        let mut marker: Option<usize> = None;
        let mut i = start_idx;
        while i < len
            invariant
                len == before.len(),
                self.tree@.len() == len,
                before == old(self).tree@,
                scope == scope_of(prefix),
                start == start_idx as int,
                self.selection == old(self).selection,
                start <= i <= len,
                forall|j: int|
                    0 <= j < i ==> self.tree@[j] == walked(before, scope, start, set_defaults)[j],
                forall|j: int| i <= j < len ==> self.tree@[j] == before[j],
                !set_defaults ==> forall|k: int|
                    start <= k < i ==> #[trigger] passes(before, scope, start, k),
                marker matches Some(m) ==> start <= m < i && heads_run(before, scope, m as int, i - 1)
                    && !covered(before, scope, start, m as int),
                marker is None ==> forall|d: int|
                    start <= d < i ==> !#[trigger] heads_run(before, scope, d, i - 1),
            decreases len - i,
        {
            let mut is_covered = false;
            if let Some(m) = marker {
                if lies_below(
                    self.tree.0[i].info.full_path.as_str(),
                    self.tree.0[m].info.full_path.as_str(),
                ) {
                    proof {
                        let p = dir_prefix(before[m as int].full_path);
                        assert(self.tree@[m as int].full_path == before[m as int].full_path);
                        assert(under(before, p, i as int));
                        assert(heads_run(before, scope, m as int, i as int));
                    }
                    is_covered = true;
                } else {
                    proof {
                        let pm = dir_prefix(before[m as int].full_path);
                        assert(self.tree@[m as int].full_path == before[m as int].full_path);
                        assert(!under(before, pm, i as int));
                        assert forall|d: int| start <= d < i implies !#[trigger] heads_run(before, scope,
                            d,
                            i as int,
                        ) by {
                            if heads_run(before, scope, d, i as int) {
                                let pd = dir_prefix(before[d].full_path);
                                if d < m {
                                    assert forall|k: int| d + 1 <= k <= m implies #[trigger] under(
                                        before,
                                        pd,
                                        k,
                                    ) by {}
                                    assert(heads_run(before, scope, d, m as int));
                                    assert(false);
                                } else if d == m {
                                    assert(under(before, pm, i as int));
                                    assert(false);
                                } else {
                                    assert(under(before, pm, d));
                                    assert(under(before, pd, i as int));
                                    lemma_below_transitive(
                                        before[i as int].full_path,
                                        before[d].full_path,
                                        before[m as int].full_path,
                                    );
                                    assert(false);
                                }
                            }
                        }
                    }
                    marker = None;
                }
            } else {
                proof {
                    assert forall|d: int| start <= d < i implies !#[trigger] heads_run(before, scope,
                        d,
                        i as int,
                    ) by {
                        if heads_run(before, scope, d, i as int) {
                            let pd = dir_prefix(before[d].full_path);
                            assert forall|k: int| d + 1 <= k <= i - 1 implies #[trigger] under(
                                before,
                                pd,
                                k,
                            ) by {}
                            assert(heads_run(before, scope, d, i - 1));
                        }
                    }
                }
            }
            if is_covered {
                proof {
                    assert(covered(before, scope, start, i as int));
                    assert(passes(before, scope, start, i as int));
                }
                self.tree.set_visible(i, false);
                assert(self.tree@[i as int] == walked(before, scope, start, set_defaults)[i as int]);
            } else {
                assert(!covered(before, scope, start, i as int));
                let within = match prefix {
                    Some(p) => starts_with(self.tree.0[i].info.full_path.as_str(), p),
                    None => true,
                };
                assert(within == in_scope(scope, before[i as int].full_path));
                if within {
                    if self.tree.is_collapsed_at(i) {
                        marker = Some(i);
                        assert(heads_run(before, scope, i as int, i as int));
                    }
                    assert(passes(before, scope, start, i as int));
                    self.tree.set_visible(i, true);
                } else if set_defaults {
                    self.tree.set_visible(i, false);
                } else {
                    assert(!passes(before, scope, start, i as int));
                    assert(self.tree@ =~= walked(before, scope, start, set_defaults));
                    return;
                }
                assert(self.tree@[i as int] == walked(before, scope, start, set_defaults)[i as int]);
            }
            i = i + 1;
        }
        assert(self.tree@ =~= walked(before, scope, start, set_defaults));
    }
}

} // verus!
