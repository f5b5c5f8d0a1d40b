//! The navigation state: a cursor over the flattened view of one forest.
//!
//! Every operation is specified by a ghost transition function over `NavV`
//! and the current visible rows; the executable methods are proved to land
//! exactly on that transition, and to report whether the visible state (open
//! set, selection, scroll) changed.

use vstd::prelude::*;

use crate::flatten::{flatten, copy_ids, open_has, rows_of, rows_view, Row, RowV};
use crate::flatten::{lemma_close_ancestor_visible, lemma_row_paths_nodes, visible_path};
use crate::model::{nviews, Kind, TreeNode};

verus! {

/// The cursor: expanded folder ids, the id path of the highlighted node
/// (empty when nothing is selected), the remembered flattened index used to
/// resume after `unselect`, and the first visible row.
pub struct NavState {
    pub open: Vec<u64>,
    pub selected: Vec<u64>,
    pub last_index: usize,
    pub scroll: usize,
}

/// Ghost state of the cursor.
#[verifier::ext_equal]
pub struct NavV {
    pub open: Set<u64>,
    pub selected: Seq<u64>,
    pub last_index: int,
    pub scroll: int,
}

impl View for NavState {
    type V = NavV;

    open spec fn view(&self) -> NavV {
        NavV {
            open: self.open@.to_set(),
            selected: self.selected@,
            last_index: self.last_index as int,
            scroll: self.scroll as int,
        }
    }
}

/// Internal invariant: the open list never lists an id twice.
pub open spec fn nav_inv(s: NavState) -> bool {
    s.open@.no_duplicates()
}

/// Pushing a fresh element adds it to the set view.
proof fn lemma_to_set_push(s: Seq<u64>, x: u64)
    ensures
        s.push(x).to_set() == s.to_set().insert(x),
{
    assert forall|a: u64| s.push(x).to_set().contains(a) implies s.to_set().insert(x).contains(
        a,
    ) by {
        let i = choose|i: int| 0 <= i < s.push(x).len() && s.push(x)[i] == a;
        if i < s.len() {
            assert(s[i] == a);
            assert(s.contains(a));
        }
    }
    assert forall|a: u64| s.to_set().insert(x).contains(a) implies s.push(x).to_set().contains(
        a,
    ) by {
        if a == x {
            assert(s.push(x)[s.len() as int] == a);
            assert(s.push(x).contains(a));
        } else {
            let i = choose|i: int| 0 <= i < s.len() && s[i] == a;
            assert(s.push(x)[i] == a);
            assert(s.push(x).contains(a));
        }
    }
    assert(s.push(x).to_set() =~= s.to_set().insert(x));
}

/// Removing the only occurrence of an element removes it from the set view.
proof fn lemma_to_set_remove(s: Seq<u64>, j: int)
    requires
        s.no_duplicates(),
        0 <= j < s.len(),
    ensures
        s.remove(j).to_set() == s.to_set().remove(s[j]),
        s.remove(j).no_duplicates(),
{
    s.remove_ensures(j);
    let r = s.remove(j);
    assert forall|a: u64| r.to_set().contains(a) implies s.to_set().remove(s[j]).contains(a) by {
        let i = choose|i: int| 0 <= i < r.len() && r[i] == a;
        if i < j {
            assert(s[i] == a);
            assert(s.contains(a));
        } else {
            assert(s[i + 1] == a);
            assert(s.contains(a));
        }
    }
    assert forall|a: u64| s.to_set().remove(s[j]).contains(a) implies r.to_set().contains(a) by {
        let i = choose|i: int| 0 <= i < s.len() && s[i] == a;
        if i < j {
            assert(r[i] == a);
            assert(r.contains(a));
        } else {
            assert(i != j);
            assert(r[i - 1] == s[i]);
            assert(r.contains(a));
        }
    }
    assert(r.to_set() =~= s.to_set().remove(s[j]));
    assert forall|a: int, b: int| 0 <= a < b < r.len() implies r[a] != r[b] by {
        if b < j {
        } else if a < j {
            assert(r[b] == s[b + 1]);
        } else {
            assert(r[a] == s[a + 1]);
            assert(r[b] == s[b + 1]);
        }
    }
}

/// Adds `x` to the open list if it is not yet there.
fn set_insert(v: &mut Vec<u64>, x: u64)
    requires
        old(v)@.no_duplicates(),
    ensures
        final(v)@.no_duplicates(),
        final(v)@.to_set() == old(v)@.to_set().insert(x),
{
    if !open_has(v, x) {
        let ghost s = v@;
        v.push(x);
        proof {
            lemma_to_set_push(s, x);
            assert forall|a: int, b: int| 0 <= a < b < v@.len() implies v@[a] != v@[b] by {
                if b == v@.len() - 1 {
                    assert(s[a] == v@[a]);
                    if v@[a] == x {
                        assert(s.contains(x));
                    }
                }
            }
        }
    } else {
        proof {
            assert(old(v)@.to_set() =~= old(v)@.to_set().insert(x));
        }
    }
}

/// Removes `x` from the open list if it is there.
fn set_remove(v: &mut Vec<u64>, x: u64)
    requires
        old(v)@.no_duplicates(),
    ensures
        final(v)@.no_duplicates(),
        final(v)@.to_set() == old(v)@.to_set().remove(x),
{
    let mut i: usize = 0;
    while i < v.len()
        invariant
            i <= v@.len(),
            v@ == old(v)@,
            v@.no_duplicates(),
            forall|k: int| 0 <= k < i ==> v@[k] != x,
        decreases v@.len() - i,
    {
        if v[i] == x {
            let ghost s = v@;
            let _ = v.remove(i);
            proof {
                lemma_to_set_remove(s, i as int);
            }
            return ;
        }
        i = i + 1;
    }
    proof {
        assert(!old(v)@.contains(x));
        assert(old(v)@.to_set() =~= old(v)@.to_set().remove(x));
    }
}

/// Compares two id paths.
fn path_eq(a: &Vec<u64>, b: &Vec<u64>) -> (r: bool)
    ensures
        r == (a@ == b@),
{
    if a.len() != b.len() {
        proof {
            assert(a@ != b@);
        }
        return false;
    }
    let mut i: usize = 0;
    while i < a.len()
        invariant
            i <= a@.len(),
            a@.len() == b@.len(),
            forall|k: int| 0 <= k < i ==> a@[k] == b@[k],
        decreases a@.len() - i,
    {
        if a[i] != b[i] {
            proof {
                assert(a@ != b@);
            }
            return false;
        }
        i = i + 1;
    }
    proof {
        assert(a@ =~= b@);
    }
    true
}

/// The first row whose path is `p`, or `rows.len()` when none carries it.
pub open spec fn row_slot(rows: Seq<RowV>, p: Seq<u64>) -> int
    decreases rows,
{
    if rows.len() == 0 {
        0int
    } else if rows[0].path == p {
        0int
    } else {
        1 + row_slot(rows.subrange(1, rows.len() as int), p)
    }
}

/// `row_slot` is the first matching position: nothing before it matches,
/// and it matches unless it is `rows.len()`.
pub proof fn lemma_row_slot(rows: Seq<RowV>, p: Seq<u64>)
    ensures
        0 <= row_slot(rows, p) <= rows.len(),
        row_slot(rows, p) < rows.len() ==> rows[row_slot(rows, p)].path == p,
        forall|k: int| 0 <= k < row_slot(rows, p) ==> rows[k].path != p,
    decreases rows,
{
    if rows.len() > 0 && rows[0].path != p {
        let sub = rows.subrange(1, rows.len() as int);
        lemma_row_slot(sub, p);
        assert forall|k: int| 0 <= k < row_slot(rows, p) implies rows[k].path != p by {
            if k > 0 {
                assert(rows[k] == sub[k - 1]);
            }
        }
    }
}

/// Finds the first row whose path is `p`, as `row_slot` does.
fn row_slot_x(rows: &Vec<Row>, p: &Vec<u64>) -> (j: usize)
    ensures
        j as int == row_slot(rows_view(rows@), p@),
{
    proof {
        lemma_row_slot(rows_view(rows@), p@);
    }
    let mut i: usize = 0;
    while i < rows.len()
        invariant
            i <= rows@.len(),
            forall|k: int| 0 <= k < i ==> (#[trigger] rows_view(rows@)[k]).path != p@,
        decreases rows@.len() - i,
    {
        if path_eq(&rows[i].path, p) {
            proof {
                lemma_row_slot(rows_view(rows@), p@);
                let s = row_slot(rows_view(rows@), p@);
                assert(rows_view(rows@)[i as int].path == p@);
                assert(!(s > i)) by {
                    if s > i {
                        assert(rows_view(rows@)[i as int].path != p@);
                    }
                }
            }
            return i;
        }
        i = i + 1;
    }
    proof {
        let s = row_slot(rows_view(rows@), p@);
        assert(!(s < rows@.len()));
    }
    rows.len()
}

/// Clamps `i` into `[lo, hi]`.
pub open spec fn clamp(i: int, lo: int, hi: int) -> int {
    if i < lo {
        lo
    } else if i > hi {
        hi
    } else {
        i
    }
}

/// Where a movement command issued with nothing selected resumes: the
/// remembered index, clamped into the current view.
pub open spec fn resume_index(s: NavV, rows: Seq<RowV>) -> int {
    clamp(s.last_index, 0, rows.len() - 1)
}

/// Moving down: from nothing, resume; otherwise one row further, clamped at
/// the last row; a no-op when the view is empty or the selection is stale.
pub open spec fn move_down_v(s: NavV, rows: Seq<RowV>) -> NavV {
    if rows.len() == 0 {
        s
    } else if s.selected.len() == 0 {
        NavV { selected: rows[resume_index(s, rows)].path, ..s }
    } else {
        let i = row_slot(rows, s.selected);
        if i == rows.len() {
            s
        } else {
            NavV { selected: rows[clamp(i + 1, 0, rows.len() - 1)].path, ..s }
        }
    }
}

/// Moving up: the mirror of `move_down_v`, clamped at the first row.
pub open spec fn move_up_v(s: NavV, rows: Seq<RowV>) -> NavV {
    if rows.len() == 0 {
        s
    } else if s.selected.len() == 0 {
        NavV { selected: rows[resume_index(s, rows)].path, ..s }
    } else {
        let i = row_slot(rows, s.selected);
        if i == rows.len() {
            s
        } else {
            NavV { selected: rows[clamp(i - 1, 0, rows.len() - 1)].path, ..s }
        }
    }
}

/// Unselecting records the current flattened index and clears the
/// selection; the scroll offset is untouched.
pub open spec fn unselect_v(s: NavV, rows: Seq<RowV>) -> NavV {
    if s.selected.len() == 0 {
        s
    } else {
        let i = row_slot(rows, s.selected);
        NavV {
            selected: Seq::<u64>::empty(),
            last_index: if i < rows.len() {
                i
            } else {
                s.last_index
            },
            ..s
        }
    }
}

/// Selecting the first visible row; a no-op on an empty view.
pub open spec fn select_first_v(s: NavV, rows: Seq<RowV>) -> NavV {
    if rows.len() == 0 {
        s
    } else {
        NavV { selected: rows[0].path, ..s }
    }
}

/// A scroll offset adjusted just enough to bring `row` into the viewport
/// `[scroll, scroll + vh)`.
pub open spec fn scroll_to(row: int, scroll: int, vh: int) -> int {
    if row < scroll {
        row
    } else if row >= scroll + vh {
        row + 1 - vh
    } else {
        scroll
    }
}

/// Selecting the last visible row, scrolling it into the viewport.
pub open spec fn select_last_v(s: NavV, rows: Seq<RowV>, vh: int) -> NavV {
    if rows.len() == 0 {
        s
    } else {
        let n = rows.len() as int;
        NavV { selected: rows[n - 1].path, scroll: scroll_to(n - 1, s.scroll, vh), ..s }
    }
}

/// The largest useful scroll offset for a view of `len` rows.
pub open spec fn max_offset(len: int, vh: int) -> int {
    if len > vh {
        len - vh
    } else {
        0
    }
}

/// Scrolling down by `n`, clamped into `[0, max_offset]`.
pub open spec fn scroll_down_v(s: NavV, len: int, vh: int, n: int) -> NavV {
    NavV { scroll: clamp(s.scroll + n, 0, max_offset(len, vh)), ..s }
}

/// Scrolling up by `n`, clamped into `[0, max_offset]`.
pub open spec fn scroll_up_v(s: NavV, len: int, vh: int, n: int) -> NavV {
    NavV { scroll: clamp(s.scroll - n, 0, max_offset(len, vh)), ..s }
}

/// Whether `p` is a proper prefix of `q`.
pub open spec fn is_proper_prefix(p: Seq<u64>, q: Seq<u64>) -> bool {
    p.len() < q.len() && q.subrange(0, p.len() as int) == p
}

/// Toggling: a selected, visible folder has its open flag flipped; anything
/// else (a host, no selection, a stale selection) is a no-op.
pub open spec fn toggle_v(s: NavV, rows: Seq<RowV>) -> NavV {
    if s.selected.len() == 0 {
        s
    } else {
        let i = row_slot(rows, s.selected);
        if i == rows.len() || rows[i].kind != Kind::Folder {
            s
        } else {
            let f = s.selected.last();
            if s.open.contains(f) {
                NavV { open: s.open.remove(f), ..s }
            } else {
                NavV { open: s.open.insert(f), ..s }
            }
        }
    }
}

/// Opening: a closed selected folder is opened; an open one hands the
/// selection to its first child, when it has one; hosts are untouched.
pub open spec fn open_selected_v(s: NavV, rows: Seq<RowV>) -> NavV {
    if s.selected.len() == 0 {
        s
    } else {
        let i = row_slot(rows, s.selected);
        if i == rows.len() || rows[i].kind != Kind::Folder {
            s
        } else {
            let f = s.selected.last();
            if !s.open.contains(f) {
                NavV { open: s.open.insert(f), ..s }
            } else if i + 1 < rows.len() && rows[i + 1].path.len() == s.selected.len() + 1
                && rows[i + 1].path.subrange(0, s.selected.len() as int) == s.selected {
                NavV { selected: rows[i + 1].path, ..s }
            } else {
                s
            }
        }
    }
}

/// Closing: an open selected folder is closed; a closed folder or a host
/// hands the selection to its parent; a root with no parent is untouched.
pub open spec fn close_selected_v(s: NavV, rows: Seq<RowV>) -> NavV {
    if s.selected.len() == 0 {
        s
    } else {
        let i = row_slot(rows, s.selected);
        if i == rows.len() {
            s
        } else if rows[i].kind == Kind::Folder && s.open.contains(s.selected.last()) {
            NavV { open: s.open.remove(s.selected.last()), ..s }
        } else if s.selected.len() >= 2 {
            NavV { selected: s.selected.subrange(0, s.selected.len() - 1), ..s }
        } else {
            s
        }
    }
}

/// Closing one folder by its id path: the folder leaves the open set, and a
/// selection lying strictly below it is relocated to the folder itself, so
/// it is never left pointing into the hidden subtree.
pub open spec fn close_folder_v(s: NavV, target: Seq<u64>) -> NavV {
    let f = target.last();
    let sel = if is_proper_prefix(target, s.selected) {
        target
    } else {
        s.selected
    };
    NavV { open: s.open.remove(f), selected: sel, ..s }
}

/// Decides whether `p@` is a proper prefix of `q@`.
fn is_proper_prefix_x(p: &Vec<u64>, q: &Vec<u64>) -> (r: bool)
    ensures
        r == is_proper_prefix(p@, q@),
{
    if p.len() >= q.len() {
        return false;
    }
    let mut i: usize = 0;
    while i < p.len()
        invariant
            i <= p@.len(),
            p@.len() < q@.len(),
            forall|k: int| 0 <= k < i ==> p@[k] == q@[k],
        decreases p@.len() - i,
    {
        if p[i] != q[i] {
            proof {
                assert(q@.subrange(0, p@.len() as int)[i as int] == q@[i as int]);
            }
            return false;
        }
        i = i + 1;
    }
    proof {
        assert(q@.subrange(0, p@.len() as int) =~= p@);
    }
    true
}

/// Decides whether `child@` extends `parent@` by exactly one id.
fn extends_path(child: &Vec<u64>, parent: &Vec<u64>) -> (r: bool)
    ensures
        r == (child@.len() == parent@.len() + 1 && child@.subrange(0, parent@.len() as int)
            == parent@),
{
    if child.len() == 0 || child.len() - 1 != parent.len() {
        return false;
    }
    let mut i: usize = 0;
    while i < parent.len()
        invariant
            i <= parent@.len(),
            child@.len() == parent@.len() + 1,
            forall|k: int| 0 <= k < i ==> child@[k] == parent@[k],
        decreases parent@.len() - i,
    {
        if child[i] != parent[i] {
            proof {
                assert(child@.subrange(0, parent@.len() as int)[i as int] == child@[i as int]);
            }
            return false;
        }
        i = i + 1;
    }
    proof {
        assert(child@.subrange(0, parent@.len() as int) =~= parent@);
    }
    true
}

impl NavState {
    /// A fresh cursor: nothing open, nothing selected, at the top.
    pub fn new() -> (s: NavState)
        ensures
            s@ == (NavV {
                open: Set::<u64>::empty(),
                selected: Seq::<u64>::empty(),
                last_index: 0,
                scroll: 0,
            }),
            nav_inv(s),
    {
        let s = NavState { open: Vec::new(), selected: Vec::new(), last_index: 0, scroll: 0 };
        proof {
            assert(s.open@.to_set() =~= Set::<u64>::empty());
            assert(s@ =~= (NavV {
                open: Set::<u64>::empty(),
                selected: Seq::<u64>::empty(),
                last_index: 0,
                scroll: 0,
            }));
        }
        s
    }

    /// Moves the selection one visible row down, clamping at the last row;
    /// issued with nothing selected, it resumes at the remembered index.
    pub fn move_down(&mut self, forest: &Vec<TreeNode>) -> (changed: bool)
        requires
            nav_inv(*old(self)),
        ensures
            nav_inv(*final(self)),
            final(self)@ == move_down_v(old(self)@, rows_of(forest@, old(self)@.open)),
            changed == (final(self)@.selected != old(self)@.selected),
    {
        let ghost rv = rows_of(forest@, old(self)@.open);
        let rows = flatten(forest, &self.open);
        if rows.len() == 0 {
            return false;
        }
        if self.selected.len() == 0 {
            let idx = if self.last_index < rows.len() {
                self.last_index
            } else {
                rows.len() - 1
            };
            proof {
                assert(idx as int == resume_index(old(self)@, rv));
                crate::flatten::lemma_row_paths_nodes(
                    crate::model::nviews(forest@),
                    old(self)@.open,
                    Seq::<u64>::empty(),
                );
                assert(rv[idx as int].path.len() > 0);
                assert(rv[idx as int] == rows@[idx as int]@);
            }
            self.selected = copy_ids(&rows[idx].path);
            proof {
                assert(self@ =~= move_down_v(old(self)@, rv));
            }
            return true;
        }
        let i = row_slot_x(&rows, &self.selected);
        if i == rows.len() {
            return false;
        }
        proof {
            lemma_row_slot(rows_view(rows@), self.selected@);
        }
        let t = if i + 1 < rows.len() {
            i + 1
        } else {
            rows.len() - 1
        };
        let changed = !path_eq(&rows[t].path, &self.selected);
        proof {
            assert(rv[t as int] == rows@[t as int]@);
        }
        self.selected = copy_ids(&rows[t].path);
        proof {
            assert(self@ =~= move_down_v(old(self)@, rv));
        }
        changed
    }

    /// Moves the selection one visible row up, clamping at the first row;
    /// issued with nothing selected, it resumes at the remembered index.
    pub fn move_up(&mut self, forest: &Vec<TreeNode>) -> (changed: bool)
        requires
            nav_inv(*old(self)),
        ensures
            nav_inv(*final(self)),
            final(self)@ == move_up_v(old(self)@, rows_of(forest@, old(self)@.open)),
            changed == (final(self)@.selected != old(self)@.selected),
    {
        let ghost rv = rows_of(forest@, old(self)@.open);
        let rows = flatten(forest, &self.open);
        if rows.len() == 0 {
            return false;
        }
        if self.selected.len() == 0 {
            let idx = if self.last_index < rows.len() {
                self.last_index
            } else {
                rows.len() - 1
            };
            proof {
                assert(idx as int == resume_index(old(self)@, rv));
                crate::flatten::lemma_row_paths_nodes(
                    crate::model::nviews(forest@),
                    old(self)@.open,
                    Seq::<u64>::empty(),
                );
                assert(rv[idx as int].path.len() > 0);
                assert(rv[idx as int] == rows@[idx as int]@);
            }
            self.selected = copy_ids(&rows[idx].path);
            proof {
                assert(self@ =~= move_up_v(old(self)@, rv));
            }
            return true;
        }
        let i = row_slot_x(&rows, &self.selected);
        if i == rows.len() {
            return false;
        }
        proof {
            lemma_row_slot(rows_view(rows@), self.selected@);
        }
        let t = if i > 0 {
            i - 1
        } else {
            0
        };
        let changed = !path_eq(&rows[t].path, &self.selected);
        proof {
            assert(rv[t as int] == rows@[t as int]@);
        }
        self.selected = copy_ids(&rows[t].path);
        proof {
            assert(self@ =~= move_up_v(old(self)@, rv));
        }
        changed
    }

    /// Clears the selection, remembering its flattened index so that the
    /// next movement command resumes there. The scroll offset is untouched.
    pub fn unselect(&mut self, forest: &Vec<TreeNode>) -> (changed: bool)
        requires
            nav_inv(*old(self)),
        ensures
            nav_inv(*final(self)),
            final(self)@ == unselect_v(old(self)@, rows_of(forest@, old(self)@.open)),
            changed == (final(self)@.selected != old(self)@.selected),
    {
        let ghost rv = rows_of(forest@, old(self)@.open);
        if self.selected.len() == 0 {
            return false;
        }
        let rows = flatten(forest, &self.open);
        let i = row_slot_x(&rows, &self.selected);
        if i < rows.len() {
            self.last_index = i;
        }
        self.selected = Vec::new();
        proof {
            assert(self@ =~= unselect_v(old(self)@, rv));
        }
        true
    }

    /// Selects the first visible row; a no-op on an empty view.
    pub fn select_first(&mut self, forest: &Vec<TreeNode>) -> (changed: bool)
        requires
            nav_inv(*old(self)),
        ensures
            nav_inv(*final(self)),
            final(self)@ == select_first_v(old(self)@, rows_of(forest@, old(self)@.open)),
            changed == (final(self)@.selected != old(self)@.selected),
    {
        let ghost rv = rows_of(forest@, old(self)@.open);
        let rows = flatten(forest, &self.open);
        if rows.len() == 0 {
            return false;
        }
        let changed = !path_eq(&rows[0].path, &self.selected);
        proof {
            assert(rv[0] == rows@[0]@);
        }
        self.selected = copy_ids(&rows[0].path);
        proof {
            assert(self@ =~= select_first_v(old(self)@, rv));
        }
        changed
    }

    /// Selects the last visible row and adjusts the scroll offset so that
    /// row lies within `[scroll, scroll + viewport)`.
    pub fn select_last(&mut self, forest: &Vec<TreeNode>, viewport: usize) -> (changed: bool)
        requires
            nav_inv(*old(self)),
        ensures
            nav_inv(*final(self)),
            final(self)@ == select_last_v(
                old(self)@,
                rows_of(forest@, old(self)@.open),
                viewport as int,
            ),
            changed == (final(self)@.selected != old(self)@.selected || final(self)@.scroll != old(
                self,
            )@.scroll),
    {
        let ghost rv = rows_of(forest@, old(self)@.open);
        let rows = flatten(forest, &self.open);
        if rows.len() == 0 {
            return false;
        }
        let last = rows.len() - 1;
        let ns = if last < self.scroll {
            last
        } else if viewport <= last - self.scroll {
            last + 1 - viewport
        } else {
            self.scroll
        };
        let changed = {
            let sel_same = path_eq(&rows[last].path, &self.selected);
            !sel_same || ns != self.scroll
        };
        proof {
            assert(rv[last as int] == rows@[last as int]@);
            assert(ns as int == scroll_to(last as int, old(self)@.scroll, viewport as int));
        }
        self.selected = copy_ids(&rows[last].path);
        self.scroll = ns;
        proof {
            assert(self@ =~= select_last_v(old(self)@, rv, viewport as int));
        }
        changed
    }

    /// Flips the open flag of the selected folder; a no-op on a host or
    /// with nothing selected.
    pub fn toggle_selected(&mut self, forest: &Vec<TreeNode>) -> (changed: bool)
        requires
            nav_inv(*old(self)),
        ensures
            nav_inv(*final(self)),
            final(self)@ == toggle_v(old(self)@, rows_of(forest@, old(self)@.open)),
            changed == (final(self)@.open != old(self)@.open),
    {
        let ghost rv = rows_of(forest@, old(self)@.open);
        if self.selected.len() == 0 {
            return false;
        }
        let rows = flatten(forest, &self.open);
        let i = row_slot_x(&rows, &self.selected);
        proof {
            lemma_row_slot(rows_view(rows@), self.selected@);
        }
        if i == rows.len() {
            return false;
        }
        proof {
            assert(rv[i as int] == rows@[i as int]@);
        }
        let isf = match rows[i].kind {
            Kind::Folder => true,
            Kind::Host => false,
        };
        if !isf {
            return false;
        }
        let f = self.selected[self.selected.len() - 1];
        let had = open_has(&self.open, f);
        if had {
            set_remove(&mut self.open, f);
            proof {
                assert(!self@.open.contains(f));
                assert(self@ =~= toggle_v(old(self)@, rv));
            }
        } else {
            set_insert(&mut self.open, f);
            proof {
                assert(self@.open.contains(f));
                assert(self@ =~= toggle_v(old(self)@, rv));
            }
        }
        true
    }

    /// Opens the selected closed folder; on an open folder, hands the
    /// selection to its first child; a no-op on a host.
    pub fn open_selected(&mut self, forest: &Vec<TreeNode>) -> (changed: bool)
        requires
            nav_inv(*old(self)),
        ensures
            nav_inv(*final(self)),
            final(self)@ == open_selected_v(old(self)@, rows_of(forest@, old(self)@.open)),
            changed == (final(self)@.open != old(self)@.open || final(self)@.selected != old(
                self,
            )@.selected),
    {
        let ghost rv = rows_of(forest@, old(self)@.open);
        if self.selected.len() == 0 {
            return false;
        }
        let rows = flatten(forest, &self.open);
        let i = row_slot_x(&rows, &self.selected);
        proof {
            lemma_row_slot(rows_view(rows@), self.selected@);
        }
        if i == rows.len() {
            return false;
        }
        proof {
            assert(rv[i as int] == rows@[i as int]@);
        }
        let isf = match rows[i].kind {
            Kind::Folder => true,
            Kind::Host => false,
        };
        if !isf {
            return false;
        }
        let f = self.selected[self.selected.len() - 1];
        if !open_has(&self.open, f) {
            set_insert(&mut self.open, f);
            proof {
                assert(self@.open.contains(f));
                assert(self@ =~= open_selected_v(old(self)@, rv));
            }
            return true;
        }
        if i + 1 < rows.len() {
            proof {
                assert(rv[i as int + 1] == rows@[i as int + 1]@);
            }
            if extends_path(&rows[i + 1].path, &self.selected) {
                self.selected = copy_ids(&rows[i + 1].path);
                proof {
                    assert(self@ =~= open_selected_v(old(self)@, rv));
                    assert(self@.selected.len() != old(self)@.selected.len());
                }
                return true;
            }
        }
        false
    }

    /// Closes the selected open folder; on a closed folder or a host, hands
    /// the selection to its parent; a no-op at a root with no parent.
    pub fn close_selected(&mut self, forest: &Vec<TreeNode>) -> (changed: bool)
        requires
            nav_inv(*old(self)),
        ensures
            nav_inv(*final(self)),
            final(self)@ == close_selected_v(old(self)@, rows_of(forest@, old(self)@.open)),
            changed == (final(self)@.open != old(self)@.open || final(self)@.selected != old(
                self,
            )@.selected),
    {
        let ghost rv = rows_of(forest@, old(self)@.open);
        if self.selected.len() == 0 {
            return false;
        }
        let rows = flatten(forest, &self.open);
        let i = row_slot_x(&rows, &self.selected);
        proof {
            lemma_row_slot(rows_view(rows@), self.selected@);
        }
        if i == rows.len() {
            return false;
        }
        proof {
            assert(rv[i as int] == rows@[i as int]@);
        }
        let isf = match rows[i].kind {
            Kind::Folder => true,
            Kind::Host => false,
        };
        let f = self.selected[self.selected.len() - 1];
        if isf && open_has(&self.open, f) {
            set_remove(&mut self.open, f);
            proof {
                assert(!self@.open.contains(f));
                assert(self@ =~= close_selected_v(old(self)@, rv));
            }
            return true;
        }
        if self.selected.len() >= 2 {
            let newlen = self.selected.len() - 1;
            self.selected.truncate(newlen);
            proof {
                assert(self@.selected.len() != old(self)@.selected.len());
                assert(self@ =~= close_selected_v(old(self)@, rv));
            }
            return true;
        }
        false
    }

    /// Closes the folder at the id path `target`, wherever it sits. A
    /// selection lying strictly below it is relocated to the folder itself,
    /// never left pointing into the hidden subtree.
    pub fn close_folder(&mut self, target: &Vec<u64>) -> (changed: bool)
        requires
            nav_inv(*old(self)),
            target@.len() > 0,
        ensures
            nav_inv(*final(self)),
            final(self)@ == close_folder_v(old(self)@, target@),
            changed == (final(self)@.open != old(self)@.open || final(self)@.selected != old(
                self,
            )@.selected),
    {
        let f = target[target.len() - 1];
        let had = open_has(&self.open, f);
        set_remove(&mut self.open, f);
        proof {
            if !had {
                assert(old(self)@.open =~= old(self)@.open.remove(f));
            } else {
                assert(self@.open != old(self)@.open) by {
                    assert(!self@.open.contains(f));
                }
            }
        }
        let reloc = is_proper_prefix_x(target, &self.selected);
        if reloc {
            self.selected = copy_ids(target);
            proof {
                assert(self@.selected.len() != old(self)@.selected.len());
            }
        }
        proof {
            assert(self@ =~= close_folder_v(old(self)@, target@));
        }
        had || reloc
    }

    /// Scrolls down by `n` rows, clamped into `[0, max_offset]`; the
    /// selection is untouched.
    pub fn scroll_down(&mut self, forest: &Vec<TreeNode>, viewport: usize, n: usize) -> (changed:
        bool)
        requires
            nav_inv(*old(self)),
        ensures
            nav_inv(*final(self)),
            final(self)@ == scroll_down_v(
                old(self)@,
                rows_of(forest@, old(self)@.open).len() as int,
                viewport as int,
                n as int,
            ),
            0 <= final(self)@.scroll <= max_offset(
                rows_of(forest@, old(self)@.open).len() as int,
                viewport as int,
            ),
            changed == (final(self)@.scroll != old(self)@.scroll),
    {
        let rows = flatten(forest, &self.open);
        let len = rows.len();
        let max = if len > viewport {
            len - viewport
        } else {
            0
        };
        let ns = if self.scroll >= max {
            max
        } else if n >= max - self.scroll {
            max
        } else {
            self.scroll + n
        };
        let changed = ns != self.scroll;
        self.scroll = ns;
        proof {
            assert(self@ =~= scroll_down_v(
                old(self)@,
                rows_view(rows@).len() as int,
                viewport as int,
                n as int,
            ));
        }
        changed
    }

    /// Scrolls up by `n` rows, clamped into `[0, max_offset]`; the
    /// selection is untouched.
    pub fn scroll_up(&mut self, forest: &Vec<TreeNode>, viewport: usize, n: usize) -> (changed:
        bool)
        requires
            nav_inv(*old(self)),
        ensures
            nav_inv(*final(self)),
            final(self)@ == scroll_up_v(
                old(self)@,
                rows_of(forest@, old(self)@.open).len() as int,
                viewport as int,
                n as int,
            ),
            0 <= final(self)@.scroll <= max_offset(
                rows_of(forest@, old(self)@.open).len() as int,
                viewport as int,
            ),
            changed == (final(self)@.scroll != old(self)@.scroll),
    {
        let rows = flatten(forest, &self.open);
        let len = rows.len();
        let max = if len > viewport {
            len - viewport
        } else {
            0
        };
        let lowered = if n > self.scroll {
            0
        } else {
            self.scroll - n
        };
        let ns = if lowered > max {
            max
        } else {
            lowered
        };
        let changed = ns != self.scroll;
        self.scroll = ns;
        proof {
            assert(self@ =~= scroll_up_v(
                old(self)@,
                rows_view(rows@).len() as int,
                viewport as int,
                n as int,
            ));
        }
        changed
    }
}

/// All rows carry distinct paths; true of any view flattened from a forest
/// whose node ids are unique.
pub open spec fn distinct_paths(rows: Seq<RowV>) -> bool {
    forall|a: int, b: int| 0 <= a < b < rows.len() ==> rows[a].path != rows[b].path
}

/// In a view with distinct paths, the slot of a row's own path is that row.
pub proof fn lemma_row_slot_of(rows: Seq<RowV>, i: int)
    requires
        distinct_paths(rows),
        0 <= i < rows.len(),
    ensures
        row_slot(rows, rows[i].path) == i,
{
    lemma_row_slot(rows, rows[i].path);
    let s = row_slot(rows, rows[i].path);
    if s < i {
        assert(rows[s].path == rows[i].path);
        assert(false);
    }
    if s > i {
        assert(rows[i].path != rows[i].path);
    }
}

/// Law: moving down and then up from any non-boundary position restores the
/// whole cursor state exactly.
pub proof fn lemma_move_down_then_up(s: NavV, rows: Seq<RowV>, i: int)
    requires
        distinct_paths(rows),
        forall|k: int| 0 <= k < rows.len() ==> (#[trigger] rows[k].path).len() > 0,
        0 <= i < rows.len() - 1,
        s.selected == rows[i].path,
    ensures
        move_up_v(move_down_v(s, rows), rows) == s,
{
    lemma_row_slot_of(rows, i);
    let s1 = move_down_v(s, rows);
    assert(s1.selected == rows[i + 1].path);
    lemma_row_slot_of(rows, i + 1);
    assert(move_up_v(s1, rows) =~= s);
}

/// Law: toggling the same selected folder twice in succession restores the
/// open set (and the whole cursor state) to its prior value.
pub proof fn lemma_toggle_twice(s: NavV, rows1: Seq<RowV>, rows2: Seq<RowV>)
    requires
        s.selected.len() > 0,
        row_slot(rows1, s.selected) < rows1.len(),
        rows1[row_slot(rows1, s.selected)].kind == Kind::Folder,
        row_slot(rows2, s.selected) < rows2.len(),
        rows2[row_slot(rows2, s.selected)].kind == Kind::Folder,
    ensures
        toggle_v(toggle_v(s, rows1), rows2) == s,
{
    let f = s.selected.last();
    let s1 = toggle_v(s, rows1);
    assert(s1.selected == s.selected);
    if s.open.contains(f) {
        assert(s1.open == s.open.remove(f));
        assert(!s1.open.contains(f));
        assert(s1.open.insert(f) =~= s.open);
    } else {
        assert(s1.open == s.open.insert(f));
        assert(s1.open.contains(f));
        assert(s1.open.remove(f) =~= s.open);
    }
    assert(toggle_v(s1, rows2) =~= s);
}

/// Law: a movement command issued right after `unselect` resumes at the
/// remembered index — the row that was selected — not at the view's first
/// element.
pub proof fn lemma_unselect_resume(s: NavV, rows: Seq<RowV>, i: int)
    requires
        distinct_paths(rows),
        0 <= i < rows.len(),
        s.selected == rows[i].path,
        s.selected.len() > 0,
    ensures
        move_down_v(unselect_v(s, rows), rows).selected == s.selected,
        move_up_v(unselect_v(s, rows), rows).selected == s.selected,
{
    lemma_row_slot_of(rows, i);
}

/// Law: closing an ancestor of the current selection relocates the
/// selection to that ancestor, and the relocated selection is still a
/// visible path — never one pointing into the hidden subtree.
pub proof fn lemma_close_folder_relocates(forest: Seq<TreeNode>, s: NavV, target: Seq<u64>)
    requires
        visible_path(nviews(forest), s.open, s.selected),
        is_proper_prefix(target, s.selected),
        target.len() > 0,
        s.selected.no_duplicates(),
    ensures
        close_folder_v(s, target).selected == target,
        visible_path(
            nviews(forest),
            close_folder_v(s, target).open,
            close_folder_v(s, target).selected,
        ),
{
    let k = target.len() as int;
    assert(target.last() == s.selected.subrange(0, k)[k - 1]);
    assert(target.last() == s.selected[k - 1]);
    lemma_close_ancestor_visible(nviews(forest), s.open, s.selected, k);
}

/// Law: selecting the last of `N` visible rows selects row `N - 1` and
/// leaves the scroll offset with that row inside `[scroll, scroll + vh)`.
pub proof fn lemma_select_last_in_view(s: NavV, rows: Seq<RowV>, vh: int)
    requires
        rows.len() > 0,
        vh >= 1,
        s.scroll >= 0,
    ensures
        select_last_v(s, rows, vh).selected == rows[rows.len() - 1].path,
        select_last_v(s, rows, vh).scroll <= rows.len() - 1 < select_last_v(s, rows, vh).scroll
            + vh,
        select_last_v(s, rows, vh).scroll >= 0,
{
}

} // verus!
