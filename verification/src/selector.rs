use vstd::prelude::*;

use crate::projects::spec_type_order;
use crate::projects::ProjectType;
use crate::scanner::views_of;
use crate::scanner::FoundDir;
use crate::scanner::FoundDirV;

verus! {

/// One entry offered for deletion, with its check-box state.
#[derive(Debug, Clone)]
pub struct GroupedItem {
    pub dir: FoundDir,
    pub selected: bool,
}

/// The mathematical value of a `GroupedItem`.
pub ghost struct ItemV {
    pub dir: FoundDirV,
    pub selected: bool,
}

impl View for GroupedItem {
    type V = ItemV;

    open spec fn view(&self) -> ItemV {
        ItemV { dir: self.dir@, selected: self.selected }
    }
}

/// All entries of one ecosystem, with the group's fold state.
#[derive(Debug)]
pub struct Group {
    pub project_type: ProjectType,
    pub items: Vec<GroupedItem>,
    pub collapsed: bool,
}

/// The mathematical value of a `Group`.
pub ghost struct GroupV {
    pub project_type: ProjectType,
    pub items: Seq<ItemV>,
    pub collapsed: bool,
}

/// The mathematical values of a list of items.
pub open spec fn item_views(s: Seq<GroupedItem>) -> Seq<ItemV> {
    s.map_values(|it: GroupedItem| it@)
}

impl View for Group {
    type V = GroupV;

    open spec fn view(&self) -> GroupV {
        GroupV {
            project_type: self.project_type,
            items: item_views(self.items@),
            collapsed: self.collapsed,
        }
    }
}

/// The mathematical values of a list of groups.
pub open spec fn groups_of(s: Seq<Group>) -> Seq<GroupV> {
    s.map_values(|g: Group| g@)
}

/// Every item of the group is ticked.
pub open spec fn spec_all_selected(items: Seq<ItemV>) -> bool {
    forall|i: int| 0 <= i < items.len() ==> (#[trigger] items[i]).selected
}

/// No item of the group is ticked.
pub open spec fn spec_none_selected(items: Seq<ItemV>) -> bool {
    forall|i: int| 0 <= i < items.len() ==> !(#[trigger] items[i]).selected
}

/// The items after a group-wide toggle: everything becomes ticked unless
/// everything already was, in which case everything becomes unticked. One
/// coherent flip, never a per-item independent toggle.
pub open spec fn spec_toggle_items(items: Seq<ItemV>) -> Seq<ItemV> {
    items.map_values(|it: ItemV| ItemV { dir: it.dir, selected: !spec_all_selected(items) })
}

/// Total bytes of the items `items[i..]`.
pub open spec fn spec_items_size(items: Seq<ItemV>, i: int) -> nat
    decreases items.len() - i,
{
    if i < 0 || i >= items.len() {
        0
    } else {
        items[i].dir.size_bytes as nat + spec_items_size(items, i + 1)
    }
}

/// Splitting the item-size sum at any index within range.
proof fn lemma_items_size_split(items: Seq<ItemV>, i: int, j: int)
    requires
        0 <= i <= j <= items.len(),
    ensures
        spec_items_size(items, i) >= spec_items_size(items, j),
    decreases j - i,
{
    if i < j {
        lemma_items_size_split(items, i + 1, j);
    }
}

impl Group {
    /// Total bytes of the group's entries.
    pub fn total_size(&self) -> (r: u64)
        requires
            spec_items_size(self@.items, 0) <= u64::MAX,
        ensures
            r as nat == spec_items_size(self@.items, 0),
    {
        let ghost vs = self@.items;
        let mut acc: u64 = 0;
        let mut i: usize = 0;
        while i < self.items.len()
            invariant
                vs == self@.items,
                vs.len() == self.items@.len(),
                i <= self.items@.len(),
                spec_items_size(vs, 0) <= u64::MAX,
                acc + spec_items_size(vs, i as int) == spec_items_size(vs, 0),
            decreases self.items@.len() - i,
        {
            proof {
                lemma_items_size_split(vs, i as int, i + 1);
            }
            acc = acc + self.items[i].dir.size_bytes;
            i += 1;
        }
        acc
    }

    /// Is every item of the group ticked?
    pub fn all_selected(&self) -> (r: bool)
        ensures
            r == spec_all_selected(self@.items),
    {
        let mut i: usize = 0;
        while i < self.items.len()
            invariant
                i <= self.items@.len(),
                forall|m: int| 0 <= m < i ==> (#[trigger] self@.items[m]).selected,
            decreases self.items@.len() - i,
        {
            if !self.items[i].selected {
                proof {
                    assert(!self@.items[i as int].selected);
                }
                return false;
            }
            i += 1;
        }
        true
    }

    /// Is no item of the group ticked?
    pub fn none_selected(&self) -> (r: bool)
        ensures
            r == spec_none_selected(self@.items),
    {
        let mut i: usize = 0;
        while i < self.items.len()
            invariant
                i <= self.items@.len(),
                forall|m: int| 0 <= m < i ==> !(#[trigger] self@.items[m]).selected,
            decreases self.items@.len() - i,
        {
            if self.items[i].selected {
                proof {
                    assert(self@.items[i as int].selected);
                }
                return false;
            }
            i += 1;
        }
        true
    }

    /// Flips the whole group: ticks every item, unless all were ticked, in
    /// which case it unticks every item.
    pub fn toggle_all(&mut self)
        ensures
            final(self).project_type == old(self).project_type,
            final(self).collapsed == old(self).collapsed,
            final(self)@.items == spec_toggle_items(old(self)@.items),
    {
        let new_state = !self.all_selected();
        let ghost items0 = self@.items;
        let ghost pt0 = self.project_type;
        let ghost col0 = self.collapsed;
        let mut j: usize = 0;
        while j < self.items.len()
            invariant
                j <= self.items@.len(),
                self.items@.len() == items0.len(),
                new_state == !spec_all_selected(items0),
                self.project_type == pt0,
                self.collapsed == col0,
                forall|m: int|
                    0 <= m < j ==> self@.items[m] == (ItemV {
                        dir: items0[m].dir,
                        selected: new_state,
                    }),
                forall|m: int| j <= m < items0.len() ==> self@.items[m] == items0[m],
            decreases self.items@.len() - j,
        {
            let ghost before = self.items@;
            let mut it = self.items.remove(j);
            it.selected = new_state;
            self.items.insert(j, it);
            proof {
                assert(self.items@ =~= before.update(j as int, it));
                assert(self@.items[j as int] == (ItemV {
                    dir: items0[j as int].dir,
                    selected: new_state,
                }));
                assert(forall|m: int|
                    0 <= m < items0.len() && m != j ==> self@.items[m] == before.map_values(
                        |x: GroupedItem| x@,
                    )[m]);
            }
            j += 1;
        }
        proof {
            assert(final(self)@.items =~= spec_toggle_items(items0));
        }
    }
}

/// Visible lines of one group: its header, plus one line per item unless
/// the group is folded away.
pub open spec fn spec_group_lines(g: GroupV) -> nat {
    if g.collapsed {
        1
    } else {
        1 + g.items.len()
    }
}

/// Visible lines of the groups `gs[i..]`.
pub open spec fn spec_total_lines(gs: Seq<GroupV>, i: int) -> nat
    decreases gs.len() - i,
{
    if i < 0 || i >= gs.len() {
        0
    } else {
        spec_group_lines(gs[i]) + spec_total_lines(gs, i + 1)
    }
}

/// Lines of the groups `gs[i..]` as if nothing were folded; an upper bound
/// on the visible count that folding cannot change.
pub open spec fn spec_expanded_lines(gs: Seq<GroupV>, i: int) -> nat
    decreases gs.len() - i,
{
    if i < 0 || i >= gs.len() {
        0
    } else {
        1 + gs[i].items.len() + spec_expanded_lines(gs, i + 1)
    }
}

/// Folding only ever hides lines.
proof fn lemma_total_le_expanded(gs: Seq<GroupV>, i: int)
    ensures
        spec_total_lines(gs, i) <= spec_expanded_lines(gs, i),
    decreases gs.len() - i,
{
    if 0 <= i && i < gs.len() {
        lemma_total_le_expanded(gs, i + 1);
    }
}

/// What a visible line denotes.
pub ghost enum LinePos {
    Header(int),
    Item(int, int),
}

/// The meaning of visible line `line`, walking the groups from `i` in
/// display order: each group contributes its header line and, when not
/// folded, one line per item.
pub open spec fn spec_line_pos(gs: Seq<GroupV>, i: int, line: int) -> LinePos
    decreases gs.len() - i,
{
    if i < 0 || i >= gs.len() {
        LinePos::Header(0)
    } else if line == 0 {
        LinePos::Header(i)
    } else if !gs[i].collapsed && line <= gs[i].items.len() {
        LinePos::Item(i, line - 1)
    } else {
        spec_line_pos(gs, i + 1, line - spec_group_lines(gs[i]) as int)
    }
}

/// Where the cursor stands, as executable data.
#[derive(Debug, Clone, Copy, PartialEq, Eq, Structural)]
pub enum CursorPosition {
    GroupHeader(usize),
    Item(usize, usize),
}

/// The mathematical value of a cursor position.
pub open spec fn pos_of(c: CursorPosition) -> LinePos {
    match c {
        CursorPosition::GroupHeader(g) => LinePos::Header(g as int),
        CursorPosition::Item(g, i) => LinePos::Item(g as int, i as int),
    }
}

/// The mathematical value of the whole selector.
pub ghost struct SelectorV {
    pub groups: Seq<GroupV>,
    pub cursor: int,
}

/// A selector in a state its operations keep: the cursor on a visible line,
/// no empty groups, and a line count within machine range.
pub open spec fn sel_wf(v: SelectorV) -> bool {
    &&& 0 <= v.cursor < spec_total_lines(v.groups, 0)
    &&& spec_expanded_lines(v.groups, 0) <= usize::MAX
    &&& forall|i: int| 0 <= i < v.groups.len() ==> (#[trigger] v.groups[i]).items.len() > 0
}

/// The grouped interactive selector: a checklist of found directories,
/// grouped by ecosystem in the fixed display order, with a cursor over the
/// visible lines.
pub struct GroupedSelector {
    groups: Vec<Group>,
    cursor: usize,
}

impl View for GroupedSelector {
    type V = SelectorV;

    closed spec fn view(&self) -> SelectorV {
        SelectorV { groups: groups_of(self.groups@), cursor: self.cursor as int }
    }
}

impl GroupedSelector {
    /// The state invariant; construction establishes it and every operation
    /// keeps it.
    pub open spec fn wf(self) -> bool {
        sel_wf(self@)
    }

    /// How many lines are visible.
    pub fn total_lines(&self) -> (r: usize)
        requires
            spec_expanded_lines(self@.groups, 0) <= usize::MAX,
        ensures
            r == spec_total_lines(self@.groups, 0),
    {
        let ghost gs = self@.groups;
        let mut acc: usize = 0;
        let mut i: usize = 0;
        proof {
            lemma_total_le_expanded(gs, 0);
        }
        while i < self.groups.len()
            invariant
                gs == self@.groups,
                gs.len() == self.groups@.len(),
                i <= gs.len(),
                spec_total_lines(gs, 0) <= usize::MAX,
                acc + spec_total_lines(gs, i as int) == spec_total_lines(gs, 0),
            decreases gs.len() - i,
        {
            proof {
                lemma_total_lines_split(gs, i as int, i + 1);
                assert(gs[i as int] == self.groups@[i as int]@);
            }
            let g = &self.groups[i];
            if g.collapsed {
                acc = acc + 1;
            } else {
                acc = acc + 1;
                acc = acc + g.items.len();
            }
            i += 1;
        }
        acc
    }

    /// Which group header or item the cursor stands on.
    pub fn cursor_position(&self) -> (r: CursorPosition)
        requires
            self.wf(),
        ensures
            pos_of(r) == spec_line_pos(self@.groups, 0, self@.cursor),
    {
        let ghost gs = self@.groups;
        let ghost cur = self@.cursor;
        let mut gi: usize = 0;
        let mut line: usize = 0;
        while gi < self.groups.len()
            invariant
                gs == self@.groups,
                cur == self@.cursor,
                gs.len() == self.groups@.len(),
                gi <= gs.len(),
                line <= cur,
                cur - line < spec_total_lines(gs, gi as int),
                spec_line_pos(gs, 0, cur) == spec_line_pos(gs, gi as int, cur - line),
            decreases gs.len() - gi,
        {
            proof {
                assert(gs[gi as int] == self.groups@[gi as int]@);
            }
            let g = &self.groups[gi];
            let rem = self.cursor - line;
            if rem == 0 {
                return CursorPosition::GroupHeader(gi);
            }
            if !g.collapsed && rem <= g.items.len() {
                return CursorPosition::Item(gi, rem - 1);
            }
            if g.collapsed {
                line = line + 1;
            } else {
                proof {
                    assert(rem > g.items@.len() + 1 - 1);
                }
                line = line + 1;
                line = line + g.items.len();
            }
            gi += 1;
        }
        proof {
            assert(spec_total_lines(gs, gs.len() as int) == 0);
            assert(false);
        }
        CursorPosition::GroupHeader(0)
    }

    /// Moves the cursor one line up, stopping at the top.
    pub fn move_up(&mut self)
        requires
            old(self).wf(),
        ensures
            final(self)@.groups == old(self)@.groups,
            final(self)@.cursor == if old(self)@.cursor > 0 {
                old(self)@.cursor - 1
            } else {
                0int
            },
            final(self).wf(),
    {
        if self.cursor > 0 {
            self.cursor = self.cursor - 1;
        }
    }

    /// Moves the cursor one line down, stopping at the last visible line.
    pub fn move_down(&mut self)
        requires
            old(self).wf(),
        ensures
            final(self)@.groups == old(self)@.groups,
            final(self)@.cursor == if old(self)@.cursor + 1 < spec_total_lines(
                old(self)@.groups,
                0,
            ) {
                old(self)@.cursor + 1
            } else {
                old(self)@.cursor
            },
            final(self).wf(),
    {
        let total = self.total_lines();
        if self.cursor + 1 < total {
            self.cursor = self.cursor + 1;
        }
    }
}

/// Splitting the visible-line count at any index within range.
proof fn lemma_total_lines_split(gs: Seq<GroupV>, i: int, j: int)
    requires
        0 <= i <= j <= gs.len(),
    ensures
        spec_total_lines(gs, i) >= spec_total_lines(gs, j),
    decreases j - i,
{
    if i < j {
        lemma_total_lines_split(gs, i + 1, j);
    }
}

/// Line counts depend only on the groups at or after the index considered.
proof fn lemma_lines_congruent(s1: Seq<GroupV>, s2: Seq<GroupV>, i: int)
    requires
        s1.len() == s2.len(),
        forall|m: int| i <= m < s1.len() ==> s1[m] == s2[m],
    ensures
        spec_total_lines(s1, i) == spec_total_lines(s2, i),
        spec_expanded_lines(s1, i) == spec_expanded_lines(s2, i),
    decreases s1.len() - i,
{
    if 0 <= i && i < s1.len() {
        lemma_lines_congruent(s1, s2, i + 1);
    }
}

/// How replacing one group changes the line counts.
proof fn lemma_lines_update(gs: Seq<GroupV>, g: int, g2: GroupV, i: int)
    requires
        0 <= i <= g < gs.len(),
    ensures
        spec_total_lines(gs.update(g, g2), i) + spec_group_lines(gs[g]) == spec_total_lines(gs, i)
            + spec_group_lines(g2),
        spec_expanded_lines(gs.update(g, g2), i) + gs[g].items.len() == spec_expanded_lines(gs, i)
            + g2.items.len(),
    decreases g - i,
{
    if i == g {
        lemma_lines_congruent(gs.update(g, g2), gs, g + 1);
    } else {
        lemma_lines_update(gs, g, g2, i + 1);
    }
}

/// The line the cursor points at lies within the group it resolves to.
proof fn lemma_line_pos_in_range(gs: Seq<GroupV>, i: int, line: int)
    requires
        0 <= i,
        0 <= line < spec_total_lines(gs, i),
    ensures
        match spec_line_pos(gs, i, line) {
            LinePos::Header(g) => i <= g < gs.len() && line == spec_total_lines(gs, i)
                - spec_total_lines(gs, g),
            LinePos::Item(g, k) => i <= g < gs.len() && 0 <= k < gs[g].items.len()
                && !gs[g].collapsed,
        },
    decreases gs.len() - i,
{
    if i < gs.len() {
        if line == 0 {
        } else if !gs[i].collapsed && line <= gs[i].items.len() {
        } else {
            lemma_line_pos_in_range(gs, i + 1, line - spec_group_lines(gs[i]) as int);
        }
    }
}

impl GroupedSelector {
    /// Flips what the cursor points at: the whole group when on a header,
    /// the single item when on an item line. Never moves the cursor and
    /// never folds or unfolds anything.
    pub fn toggle_current(&mut self)
        requires
            old(self).wf(),
        ensures
            final(self)@.cursor == old(self)@.cursor,
            final(self).wf(),
            ({
                let gs = old(self)@.groups;
                match spec_line_pos(gs, 0, old(self)@.cursor) {
                    LinePos::Header(g) => final(self)@.groups == gs.update(
                        g,
                        GroupV {
                            project_type: gs[g].project_type,
                            items: spec_toggle_items(gs[g].items),
                            collapsed: gs[g].collapsed,
                        },
                    ),
                    LinePos::Item(g, k) => final(self)@.groups == gs.update(
                        g,
                        GroupV {
                            project_type: gs[g].project_type,
                            items: gs[g].items.update(
                                k,
                                ItemV {
                                    dir: gs[g].items[k].dir,
                                    selected: !gs[g].items[k].selected,
                                },
                            ),
                            collapsed: gs[g].collapsed,
                        },
                    ),
                }
            }),
    {
        let ghost gs = self@.groups;
        proof {
            lemma_line_pos_in_range(gs, 0, self@.cursor);
        }
        match self.cursor_position() {
            CursorPosition::GroupHeader(gi) => {
                let ghost before = self.groups@;
                let mut g = self.groups.remove(gi);
                g.toggle_all();
                self.groups.insert(gi, g);
                proof {
                    assert(self.groups@ =~= before.update(gi as int, g));
                    let g2 = GroupV {
                        project_type: gs[gi as int].project_type,
                        items: spec_toggle_items(gs[gi as int].items),
                        collapsed: gs[gi as int].collapsed,
                    };
                    assert(g@ == g2);
                    assert(final(self)@.groups =~= gs.update(gi as int, g2));
                    lemma_lines_update(gs, gi as int, g2, 0);
                }
            },
            CursorPosition::Item(gi, ii) => {
                let ghost before = self.groups@;
                let mut g = self.groups.remove(gi);
                let ghost items0 = g@.items;
                let ghost gbefore = g.items@;
                let mut it = g.items.remove(ii);
                it.selected = !it.selected;
                g.items.insert(ii, it);
                proof {
                    assert(g.items@ =~= gbefore.update(ii as int, it));
                }
                self.groups.insert(gi, g);
                proof {
                    assert(self.groups@ =~= before.update(gi as int, g));
                    let g2 = GroupV {
                        project_type: gs[gi as int].project_type,
                        items: gs[gi as int].items.update(
                            ii as int,
                            ItemV {
                                dir: gs[gi as int].items[ii as int].dir,
                                selected: !gs[gi as int].items[ii as int].selected,
                            },
                        ),
                        collapsed: gs[gi as int].collapsed,
                    };
                    assert(g@.items =~= g2.items);
                    assert(g@ == g2);
                    assert(final(self)@.groups =~= gs.update(gi as int, g2));
                    lemma_lines_update(gs, gi as int, g2, 0);
                }
            },
        }
    }

    /// Folds or unfolds the group whose header the cursor stands on; does
    /// nothing when the cursor is on an item line. Folding is view-only: no
    /// item's tick changes, and the cursor stays on the header.
    pub fn toggle_collapse(&mut self)
        requires
            old(self).wf(),
        ensures
            final(self)@.cursor == old(self)@.cursor,
            final(self).wf(),
            ({
                let gs = old(self)@.groups;
                match spec_line_pos(gs, 0, old(self)@.cursor) {
                    LinePos::Header(g) => final(self)@.groups == gs.update(
                        g,
                        GroupV {
                            project_type: gs[g].project_type,
                            items: gs[g].items,
                            collapsed: !gs[g].collapsed,
                        },
                    ),
                    LinePos::Item(g, k) => final(self)@.groups == gs,
                }
            }),
    {
        let ghost gs = self@.groups;
        proof {
            lemma_line_pos_in_range(gs, 0, self@.cursor);
        }
        match self.cursor_position() {
            CursorPosition::GroupHeader(gi) => {
                let ghost before = self.groups@;
                let mut g = self.groups.remove(gi);
                g.collapsed = !g.collapsed;
                self.groups.insert(gi, g);
                proof {
                    assert(self.groups@ =~= before.update(gi as int, g));
                    let g2 = GroupV {
                        project_type: gs[gi as int].project_type,
                        items: gs[gi as int].items,
                        collapsed: !gs[gi as int].collapsed,
                    };
                    assert(g@ == g2);
                    assert(final(self)@.groups =~= gs.update(gi as int, g2));
                    lemma_lines_update(gs, gi as int, g2, 0);
                    // the cursor sits on the header, before every line this
                    // fold hides, so it stays visible
                    assert(self@.cursor == spec_total_lines(gs, 0) - spec_total_lines(
                        gs,
                        gi as int,
                    ));
                    lemma_total_lines_split(final(self)@.groups, 0, gi as int);
                    lemma_lines_update(gs, gi as int, g2, gi as int);
                    assert(spec_total_lines(final(self)@.groups, gi as int) >= spec_group_lines(
                        g2,
                    ));
                }
            },
            CursorPosition::Item(_gi, _ii) => {
                proof {
                    assert(final(self)@.groups =~= gs);
                }
            },
        }
    }
}

/// One group-wide toggle of a fully ticked group unticks everything, and a
/// second toggle restores exactly the original state.
pub proof fn lemma_toggle_all_round_trip(items: Seq<ItemV>)
    requires
        spec_all_selected(items),
    ensures
        spec_none_selected(spec_toggle_items(items)),
        spec_toggle_items(spec_toggle_items(items)) == items,
{
    let t1 = spec_toggle_items(items);
    assert(forall|i: int| 0 <= i < t1.len() ==> !(#[trigger] t1[i]).selected);
    if items.len() == 0 {
        assert(spec_toggle_items(t1) =~= items);
    } else {
        assert(!t1[0].selected);
        assert(!spec_all_selected(t1));
        assert(spec_toggle_items(t1) =~= items);
    }
}

/// The test for entries of one ecosystem; named so that every mention is
/// one and the same function value.
pub open spec fn pt_pred(pt: ProjectType) -> spec_fn(FoundDirV) -> bool {
    |d: FoundDirV| d.project_type == pt
}

/// The test for entries of any ecosystem listed at or after `i` in `ord`.
pub open spec fn suffix_pred(ord: Seq<ProjectType>, i: int) -> spec_fn(FoundDirV) -> bool {
    |d: FoundDirV| exists|m: int| i <= m < ord.len() && ord[m] == d.project_type
}

/// Wraps an entry as a freshly ticked item.
pub open spec fn mk_item() -> spec_fn(FoundDirV) -> ItemV {
    |d: FoundDirV| ItemV { dir: d, selected: true }
}

/// The tick of an item.
pub open spec fn sel_pred() -> spec_fn(ItemV) -> bool {
    |it: ItemV| it.selected
}

/// The entry an item wraps.
pub open spec fn dir_of() -> spec_fn(ItemV) -> FoundDirV {
    |it: ItemV| it.dir
}

/// The entries of one ecosystem, in their incoming order.
pub open spec fn spec_dirs_for(found: Seq<FoundDirV>, pt: ProjectType) -> Seq<FoundDirV> {
    found.filter(pt_pred(pt))
}

/// The freshly ticked items of one ecosystem.
pub open spec fn spec_items_for(found: Seq<FoundDirV>, pt: ProjectType) -> Seq<ItemV> {
    spec_dirs_for(found, pt).map_values(mk_item())
}

/// The groups for the ecosystems `order[i..]`, in that order, one group per
/// ecosystem that has at least one entry, every item ticked and every group
/// unfolded.
pub open spec fn spec_groups_from(
    found: Seq<FoundDirV>,
    order: Seq<ProjectType>,
    i: int,
) -> Seq<GroupV>
    decreases order.len() - i,
{
    if i < 0 || i >= order.len() {
        Seq::empty()
    } else {
        (if spec_items_for(found, order[i]).len() > 0 {
            seq![
                GroupV {
                    project_type: order[i],
                    items: spec_items_for(found, order[i]),
                    collapsed: false,
                },
            ]
        } else {
            Seq::empty()
        }) + spec_groups_from(found, order, i + 1)
    }
}

/// The selector's initial groups: the found entries partitioned by
/// ecosystem in the fixed display order.
pub open spec fn spec_make_groups(found: Seq<FoundDirV>) -> Seq<GroupV> {
    spec_groups_from(found, spec_type_order(), 0)
}

/// How many items the groups `gs[i..]` hold.
pub open spec fn spec_item_count(gs: Seq<GroupV>, i: int) -> nat
    decreases gs.len() - i,
{
    if i < 0 || i >= gs.len() {
        0
    } else {
        gs[i].items.len() + spec_item_count(gs, i + 1)
    }
}

/// Every entry of the groups `gs[i..]`, ticked or not, in display order.
pub open spec fn spec_group_dirs(gs: Seq<GroupV>, i: int) -> Seq<FoundDirV>
    decreases gs.len() - i,
{
    if i < 0 || i >= gs.len() {
        Seq::empty()
    } else {
        gs[i].items.map_values(dir_of()) + spec_group_dirs(gs, i + 1)
    }
}

/// The ticked entries of the groups `gs[i..]`, in display order.
pub open spec fn spec_selected_dirs(gs: Seq<GroupV>, i: int) -> Seq<FoundDirV>
    decreases gs.len() - i,
{
    if i < 0 || i >= gs.len() {
        Seq::empty()
    } else {
        gs[i].items.filter(sel_pred()).map_values(dir_of()) + spec_selected_dirs(gs, i + 1)
    }
}

/// A filter keeps nothing when nothing passes.
proof fn lemma_filter_none<A>(s: Seq<A>, p: spec_fn(A) -> bool)
    requires
        forall|k: int| 0 <= k < s.len() ==> !p(#[trigger] s[k]),
    ensures
        s.filter(p) == Seq::<A>::empty(),
    decreases s.len(),
{
    broadcast use Seq::lemma_filter_push;
    broadcast use Seq::lemma_filter_len;

    if s.len() == 0 {
        assert(s.filter(p).len() <= 0);
        assert(s.filter(p) =~= Seq::<A>::empty());
    } else {
        let dl = s.drop_last();
        lemma_filter_none(dl, p);
        assert(s =~= dl.push(s.last()));
        assert(s.filter(p) == dl.push(s.last()).filter(p));
        assert(!p(s.last()));
    }
}

/// A filter keeps everything when everything passes.
proof fn lemma_filter_all<A>(s: Seq<A>, p: spec_fn(A) -> bool)
    requires
        forall|k: int| 0 <= k < s.len() ==> p(#[trigger] s[k]),
    ensures
        s.filter(p) == s,
    decreases s.len(),
{
    broadcast use Seq::lemma_filter_push;

    if s.len() == 0 {
        lemma_filter_none(s, p);
    } else {
        let dl = s.drop_last();
        lemma_filter_all(dl, p);
        assert(s =~= dl.push(s.last()));
        assert(s.filter(p) == dl.push(s.last()).filter(p));
        assert(s.filter(p) =~= s);
    }
}

/// Filtering by two mutually exclusive tests and joining the results keeps,
/// as a collection, exactly what their disjunction keeps.
proof fn lemma_filter_split(
    s: Seq<FoundDirV>,
    p: spec_fn(FoundDirV) -> bool,
    q: spec_fn(FoundDirV) -> bool,
    r: spec_fn(FoundDirV) -> bool,
)
    requires
        forall|x: FoundDirV| #[trigger] r(x) == (p(x) || q(x)),
        forall|x: FoundDirV| #[trigger] p(x) ==> !q(x),
    ensures
        s.filter(p).to_multiset().add(s.filter(q).to_multiset()) == s.filter(r).to_multiset(),
    decreases s.len(),
{
    broadcast use Seq::lemma_filter_push;

    if s.len() == 0 {
        lemma_filter_none(s, p);
        lemma_filter_none(s, q);
        lemma_filter_none(s, r);
        crate::scanner::lemma_to_multiset_empty(Seq::<FoundDirV>::empty());
        assert(s.filter(p).to_multiset().add(s.filter(q).to_multiset()) =~= s.filter(
            r,
        ).to_multiset());
    } else {
        let dl = s.drop_last();
        let x = s.last();
        lemma_filter_split(dl, p, q, r);
        assert(s =~= dl.push(x));
        assert(s.filter(p) == dl.push(x).filter(p));
        assert(s.filter(q) == dl.push(x).filter(q));
        assert(s.filter(r) == dl.push(x).filter(r));
        dl.filter(p).to_multiset_ensures();
        dl.filter(q).to_multiset_ensures();
        dl.filter(r).to_multiset_ensures();
        if p(x) {
            assert(s.filter(p).to_multiset() =~= dl.filter(p).to_multiset().insert(x));
            assert(s.filter(p).to_multiset().add(s.filter(q).to_multiset()) =~= s.filter(
                r,
            ).to_multiset());
        } else if q(x) {
            assert(s.filter(q).to_multiset() =~= dl.filter(q).to_multiset().insert(x));
            assert(s.filter(p).to_multiset().add(s.filter(q).to_multiset()) =~= s.filter(
                r,
            ).to_multiset());
        } else {
            assert(s.filter(p).to_multiset().add(s.filter(q).to_multiset()) =~= s.filter(
                r,
            ).to_multiset());
        }
    }
}

/// Item and entry counts agree, group by group.
proof fn lemma_item_count_dirs(gs: Seq<GroupV>, i: int)
    ensures
        spec_item_count(gs, i) == spec_group_dirs(gs, i).len(),
    decreases gs.len() - i,
{
    if 0 <= i && i < gs.len() {
        lemma_item_count_dirs(gs, i + 1);
    }
}

/// At most one group arises per ecosystem listed.
proof fn lemma_groups_from_len(found: Seq<FoundDirV>, ord: Seq<ProjectType>, i: int)
    requires
        0 <= i,
    ensures
        spec_groups_from(found, ord, i).len() <= ord.len() - i || ord.len() - i < 0,
    decreases ord.len() - i,
{
    if i < ord.len() {
        lemma_groups_from_len(found, ord, i + 1);
    }
}

/// The unfolded line count is the group count plus the item count.
proof fn lemma_expanded_count(gs: Seq<GroupV>, i: int)
    requires
        0 <= i <= gs.len(),
    ensures
        spec_expanded_lines(gs, i) == gs.len() - i + spec_item_count(gs, i),
    decreases gs.len() - i,
{
    if i < gs.len() {
        lemma_expanded_count(gs, i + 1);
    }
}

/// With nothing folded, the visible count equals the unfolded count.
proof fn lemma_total_eq_expanded(gs: Seq<GroupV>, i: int)
    requires
        forall|m: int| 0 <= m < gs.len() ==> !(#[trigger] gs[m]).collapsed,
    ensures
        spec_total_lines(gs, i) == spec_expanded_lines(gs, i),
    decreases gs.len() - i,
{
    if 0 <= i && i < gs.len() {
        lemma_total_eq_expanded(gs, i + 1);
    }
}

/// On a fresh selector the visible line count is the group count plus the
/// item count: nothing is folded away.
pub proof fn lemma_fresh_visible_lines(gs: Seq<GroupV>)
    requires
        forall|m: int| 0 <= m < gs.len() ==> !(#[trigger] gs[m]).collapsed,
    ensures
        spec_total_lines(gs, 0) == gs.len() + spec_item_count(gs, 0),
{
    lemma_total_eq_expanded(gs, 0);
    lemma_expanded_count(gs, 0);
}

/// Every group built from a partition is non-empty, unfolded, fully
/// ticked, and holds exactly its ecosystem's entries.
proof fn lemma_groups_from_shape(found: Seq<FoundDirV>, ord: Seq<ProjectType>, i: int)
    requires
        0 <= i,
    ensures
        forall|k: int|
            0 <= k < spec_groups_from(found, ord, i).len() ==> {
                let g = #[trigger] spec_groups_from(found, ord, i)[k];
                &&& g.items.len() > 0
                &&& !g.collapsed
                &&& spec_all_selected(g.items)
                &&& g.items == spec_items_for(found, g.project_type)
            },
    decreases ord.len() - i,
{
    if i < ord.len() {
        lemma_groups_from_shape(found, ord, i + 1);
        let r = spec_groups_from(found, ord, i);
        assert forall|k: int| 0 <= k < r.len() implies {
            let g = #[trigger] r[k];
            &&& g.items.len() > 0
            &&& !g.collapsed
            &&& spec_all_selected(g.items)
            &&& g.items == spec_items_for(found, g.project_type)
        } by {
            if spec_items_for(found, ord[i]).len() > 0 && k == 0 {
                let g = r[0];
                assert(g.items == spec_items_for(found, ord[i]));
                assert(forall|m: int|
                    0 <= m < g.items.len() ==> (#[trigger] g.items[m]).selected);
            } else {
                let tail = spec_groups_from(found, ord, i + 1);
                if spec_items_for(found, ord[i]).len() > 0 {
                    assert(r[k] == tail[k - 1]);
                } else {
                    assert(r[k] == tail[k]);
                }
            }
        }
    }
}

/// Entry counts of the groups `gs[i..]`, two listings with equal tails.
proof fn lemma_group_dirs_shift(gs: Seq<GroupV>, k: int, gs2: Seq<GroupV>, k2: int)
    requires
        0 <= k,
        0 <= k2,
        gs.len() - k == gs2.len() - k2,
        forall|m: int| 0 <= m < gs.len() - k ==> #[trigger] gs[k + m] == gs2[k2 + m],
    ensures
        spec_group_dirs(gs, k) == spec_group_dirs(gs2, k2),
    decreases gs.len() - k,
{
    if k < gs.len() {
        assert(gs[k + 0] == gs2[k2 + 0]);
        assert forall|m: int| 0 <= m < gs.len() - (k + 1) implies #[trigger] gs[(k + 1) + m]
            == gs2[(k2 + 1) + m] by {
            assert(gs[k + (m + 1)] == gs2[k2 + (m + 1)]);
        }
        lemma_group_dirs_shift(gs, k + 1, gs2, k2 + 1);
    }
}

/// The entries of the groups for `ord[i..]` are, as a collection, exactly
/// the found entries of those ecosystems.
proof fn lemma_groups_from_dirs(found: Seq<FoundDirV>, ord: Seq<ProjectType>, i: int)
    requires
        0 <= i,
        forall|a: int, b: int|
            0 <= a < b < ord.len() ==> #[trigger] ord[a] != #[trigger] ord[b],
    ensures
        spec_group_dirs(spec_groups_from(found, ord, i), 0).to_multiset() == found.filter(
            suffix_pred(ord, i),
        ).to_multiset(),
    decreases ord.len() - i,
{
    let gs = spec_groups_from(found, ord, i);
    if i >= ord.len() {
        assert(forall|k: int|
            0 <= k < found.len() ==> !suffix_pred(ord, i)(#[trigger] found[k]));
        lemma_filter_none(found, suffix_pred(ord, i));
        crate::scanner::lemma_to_multiset_empty(spec_group_dirs(gs, 0));
        crate::scanner::lemma_to_multiset_empty(Seq::<FoundDirV>::empty());
    } else {
        lemma_groups_from_dirs(found, ord, i + 1);
        let tail = spec_groups_from(found, ord, i + 1);
        assert forall|x: FoundDirV| #[trigger] suffix_pred(ord, i)(x) == (pt_pred(ord[i])(x)
            || suffix_pred(ord, i + 1)(x)) by {
            if suffix_pred(ord, i)(x) {
                let m = choose|m: int| i <= m < ord.len() && ord[m] == x.project_type;
                if m == i {
                    assert(pt_pred(ord[i])(x));
                } else {
                    assert(suffix_pred(ord, i + 1)(x));
                }
            }
            if pt_pred(ord[i])(x) {
                assert(ord[i] == x.project_type);
                assert(suffix_pred(ord, i)(x));
            }
            if suffix_pred(ord, i + 1)(x) {
                let m = choose|m: int| i + 1 <= m < ord.len() && ord[m] == x.project_type;
                assert(i <= m < ord.len() && ord[m] == x.project_type);
                assert(suffix_pred(ord, i)(x));
            }
        }
        assert forall|x: FoundDirV| #[trigger] pt_pred(ord[i])(x) implies !suffix_pred(
            ord,
            i + 1,
        )(x) by {
            if suffix_pred(ord, i + 1)(x) {
                let m = choose|m: int| i + 1 <= m < ord.len() && ord[m] == x.project_type;
                assert(ord[i] != ord[m]);
            }
        }
        lemma_filter_split(found, pt_pred(ord[i]), suffix_pred(ord, i + 1), suffix_pred(ord, i));
        if spec_items_for(found, ord[i]).len() > 0 {
            let g = GroupV {
                project_type: ord[i],
                items: spec_items_for(found, ord[i]),
                collapsed: false,
            };
            assert(gs == seq![g] + tail);
            assert(gs[0] == g);
            assert(spec_group_dirs(gs, 0) == g.items.map_values(dir_of()) + spec_group_dirs(
                gs,
                1,
            ));
            lemma_group_dirs_shift(gs, 1, tail, 0);
            assert(g.items.map_values(dir_of()) =~= spec_dirs_for(found, ord[i]));
            crate::scanner::lemma_seq_add_to_multiset(
                g.items.map_values(dir_of()),
                spec_group_dirs(tail, 0),
            );
        } else {
            assert(gs =~= tail);
            assert(spec_group_dirs(gs, 0) == spec_group_dirs(tail, 0));
            assert(spec_dirs_for(found, ord[i]).len() == 0) by {
                assert(spec_items_for(found, ord[i]).len() == spec_dirs_for(
                    found,
                    ord[i],
                ).len());
            }
            crate::scanner::lemma_to_multiset_empty(spec_dirs_for(found, ord[i]));
            assert(found.filter(pt_pred(ord[i])).to_multiset().add(found.filter(
                suffix_pred(ord, i + 1),
            ).to_multiset()) =~= found.filter(suffix_pred(ord, i + 1)).to_multiset());
        }
    }
}

/// A numeric tag distinguishing the ecosystems.
spec fn type_tag(pt: ProjectType) -> int {
    match pt {
        ProjectType::Rust => 0,
        ProjectType::Node => 1,
        ProjectType::Python => 2,
        ProjectType::JavaMaven => 3,
        ProjectType::Gradle => 4,
        ProjectType::DotNet => 5,
        ProjectType::NextJs => 6,
        ProjectType::NuxtJs => 7,
    }
}

/// The display order lists each ecosystem exactly once.
proof fn lemma_type_order_distinct()
    ensures
        forall|a: int, b: int|
            0 <= a < b < spec_type_order().len() ==> #[trigger] spec_type_order()[a]
                != #[trigger] spec_type_order()[b],
{
    let ord = spec_type_order();
    assert forall|k: int| 0 <= k < ord.len() implies type_tag(#[trigger] ord[k]) == k by {
        if k == 0 {
            assert(ord[0] == ProjectType::Rust);
        } else if k == 1 {
            assert(ord[1] == ProjectType::Node);
        } else if k == 2 {
            assert(ord[2] == ProjectType::Python);
        } else if k == 3 {
            assert(ord[3] == ProjectType::JavaMaven);
        } else if k == 4 {
            assert(ord[4] == ProjectType::Gradle);
        } else if k == 5 {
            assert(ord[5] == ProjectType::DotNet);
        } else if k == 6 {
            assert(ord[6] == ProjectType::NextJs);
        } else {
            assert(ord[7] == ProjectType::NuxtJs);
        }
    }
}

/// Every ecosystem stands somewhere in the display order.
proof fn lemma_type_order_complete(pt: ProjectType)
    ensures
        exists|m: int| 0 <= m < spec_type_order().len() && spec_type_order()[m] == pt,
{
    let ord = spec_type_order();
    match pt {
        ProjectType::Rust => assert(ord[0] == pt),
        ProjectType::Node => assert(ord[1] == pt),
        ProjectType::Python => assert(ord[2] == pt),
        ProjectType::JavaMaven => assert(ord[3] == pt),
        ProjectType::Gradle => assert(ord[4] == pt),
        ProjectType::DotNet => assert(ord[5] == pt),
        ProjectType::NextJs => assert(ord[6] == pt),
        ProjectType::NuxtJs => assert(ord[7] == pt),
    }
}

/// Grouping loses nothing and invents nothing: the groups' entries are, as
/// a collection, exactly the entries supplied.
pub proof fn lemma_make_groups_partition(found: Seq<FoundDirV>)
    ensures
        spec_group_dirs(spec_make_groups(found), 0).to_multiset() == found.to_multiset(),
{
    let ord = spec_type_order();
    lemma_type_order_distinct();
    lemma_groups_from_dirs(found, ord, 0);
    assert forall|k: int| 0 <= k < found.len() implies suffix_pred(ord, 0)(
        #[trigger] found[k],
    ) by {
        lemma_type_order_complete(found[k].project_type);
    }
    lemma_filter_all(found, suffix_pred(ord, 0));
}

/// A fresh grouping holds at least one group when anything was found.
proof fn lemma_groups_from_has(found: Seq<FoundDirV>, ord: Seq<ProjectType>, i: int, m: int)
    requires
        0 <= i <= m < ord.len(),
        spec_items_for(found, ord[m]).len() > 0,
    ensures
        spec_groups_from(found, ord, i).len() > 0,
    decreases m - i,
{
    if i < m {
        lemma_groups_from_has(found, ord, i + 1, m);
    }
}

/// A filter keeps something when some element passes.
proof fn lemma_filter_mem<A>(s: Seq<A>, p: spec_fn(A) -> bool, i: int)
    requires
        0 <= i < s.len(),
        p(s[i]),
    ensures
        s.filter(p).len() > 0,
    decreases s.len(),
{
    broadcast use Seq::lemma_filter_push;

    let dl = s.drop_last();
    assert(s =~= dl.push(s.last()));
    assert(s.filter(p) == dl.push(s.last()).filter(p));
    if i < s.len() - 1 {
        assert(dl[i] == s[i]);
        lemma_filter_mem(dl, p, i);
    }
}

/// Taking one more element appends it to the kept entries exactly when it
/// belongs to the ecosystem.
proof fn lemma_dirs_for_snoc(found: Seq<FoundDirV>, n: int, pt: ProjectType)
    requires
        0 <= n < found.len(),
    ensures
        spec_dirs_for(found.take(n + 1), pt) == if found[n].project_type == pt {
            spec_dirs_for(found.take(n), pt).push(found[n])
        } else {
            spec_dirs_for(found.take(n), pt)
        },
{
    broadcast use Seq::lemma_filter_push;

    assert(found.take(n + 1) =~= found.take(n).push(found[n]));
    assert(spec_dirs_for(found.take(n + 1), pt) == found.take(n).push(found[n]).filter(
        pt_pred(pt),
    ));
}

/// Taking one more item appends it to the ticked entries exactly when it is
/// ticked.
proof fn lemma_sel_snoc(items: Seq<ItemV>, n: int)
    requires
        0 <= n < items.len(),
    ensures
        items.take(n + 1).filter(sel_pred()) == if items[n].selected {
            items.take(n).filter(sel_pred()).push(items[n])
        } else {
            items.take(n).filter(sel_pred())
        },
{
    broadcast use Seq::lemma_filter_push;

    assert(items.take(n + 1) =~= items.take(n).push(items[n]));
    assert(items.take(n + 1).filter(sel_pred()) == items.take(n).push(items[n]).filter(
        sel_pred(),
    ));
}

/// Collects copies of the entries of one ecosystem, keeping their order.
fn collect_dirs(found: &Vec<FoundDir>, pt: ProjectType) -> (r: Vec<FoundDir>)
    ensures
        views_of(r@) == spec_dirs_for(views_of(found@), pt),
{
    let ghost vf = views_of(found@);
    let mut r: Vec<FoundDir> = Vec::new();
    let mut fi: usize = 0;
    proof {
        assert(vf.take(0) =~= Seq::<FoundDirV>::empty());
        lemma_filter_none(vf.take(0), pt_pred(pt));
        assert(views_of(r@) =~= spec_dirs_for(vf.take(0), pt));
    }
    while fi < found.len()
        invariant
            vf == views_of(found@),
            vf.len() == found@.len(),
            fi <= found@.len(),
            views_of(r@) == spec_dirs_for(vf.take(fi as int), pt),
        decreases found@.len() - fi,
    {
        let ghost pre = r@;
        if found[fi].project_type == pt {
            r.push(found[fi].duplicate());
            proof {
                assert(views_of(r@) =~= views_of(pre).push(vf[fi as int]));
            }
        }
        proof {
            lemma_dirs_for_snoc(vf, fi as int, pt);
            assert(vf[fi as int].project_type == found@[fi as int].project_type);
            assert(views_of(r@) == spec_dirs_for(vf.take(fi + 1), pt));
        }
        fi += 1;
    }
    proof {
        assert(vf.take(found@.len() as int) =~= vf);
    }
    r
}

/// Collects the freshly ticked items of one ecosystem, keeping their order.
fn collect_items(found: &Vec<FoundDir>, pt: ProjectType) -> (r: Vec<GroupedItem>)
    ensures
        item_views(r@) == spec_items_for(views_of(found@), pt),
{
    let dirs = collect_dirs(found, pt);
    let ghost dv = views_of(dirs@);
    let mut items: Vec<GroupedItem> = Vec::new();
    let mut i: usize = 0;
    proof {
        assert(dv.take(0) =~= Seq::<FoundDirV>::empty());
        assert(item_views(items@) =~= dv.take(0).map_values(mk_item()));
    }
    while i < dirs.len()
        invariant
            dv == views_of(dirs@),
            dv == spec_dirs_for(views_of(found@), pt),
            dv.len() == dirs@.len(),
            i <= dirs@.len(),
            item_views(items@) == dv.take(i as int).map_values(mk_item()),
        decreases dirs@.len() - i,
    {
        let ghost pre = items@;
        proof {
            assert(item_views(pre).len() == pre.len());
            assert(pre.len() == i as int);
        }
        items.push(GroupedItem { dir: dirs[i].duplicate(), selected: true });
        proof {
            assert(items@ =~= pre.push(items@[i as int]));
            assert(items@[i as int]@ == mk_item()(dv[i as int]));
            assert forall|m: int| 0 <= m < i + 1 implies item_views(items@)[m] == dv.take(
                i + 1,
            ).map_values(mk_item())[m] by {
                if m < i {
                    assert(item_views(pre)[m] == dv.take(i as int).map_values(mk_item())[m]);
                }
            }
            assert(item_views(items@) =~= dv.take(i + 1).map_values(mk_item()));
        }
        i += 1;
    }
    proof {
        assert(dv.take(dirs@.len() as int) =~= dv);
    }
    items
}

impl GroupedSelector {
    /// Builds the selector over a non-empty set of findings: the entries
    /// partitioned by ecosystem in the fixed display order, every item
    /// ticked, every group unfolded, the cursor on the first line.
    pub fn new(found: Vec<FoundDir>) -> (r: GroupedSelector)
        requires
            found@.len() > 0,
            found@.len() + 8 <= usize::MAX,
        ensures
            r@.groups == spec_make_groups(views_of(found@)),
            r@.cursor == 0,
            r.wf(),
    {
        let ghost vf = views_of(found@);
        let order = ProjectType::all();
        let mut groups: Vec<Group> = Vec::new();
        let mut oi: usize = 0;
        proof {
            assert(groups_of(groups@) + spec_groups_from(vf, order@, 0) =~= spec_groups_from(
                vf,
                order@,
                0,
            ));
        }
        while oi < order.len()
            invariant
                vf == views_of(found@),
                order@ == spec_type_order(),
                oi <= order@.len(),
                groups_of(groups@) + spec_groups_from(vf, order@, oi as int) == spec_groups_from(
                    vf,
                    order@,
                    0,
                ),
            decreases order@.len() - oi,
        {
            let pt = order[oi];
            let items = collect_items(&found, pt);
            let ghost gpre = groups@;
            let ghost head = (if spec_items_for(vf, pt).len() > 0 {
                seq![
                    GroupV { project_type: pt, items: spec_items_for(vf, pt), collapsed: false },
                ]
            } else {
                Seq::<GroupV>::empty()
            });
            proof {
                assert(item_views(items@).len() == items@.len());
                assert(order@[oi as int] == pt);
                assert(spec_groups_from(vf, order@, oi as int) == head + spec_groups_from(
                    vf,
                    order@,
                    oi + 1,
                ));
            }
            if items.len() > 0 {
                let g = Group { project_type: pt, items, collapsed: false };
                proof {
                    assert(g@ == head[0]);
                }
                groups.push(g);
                proof {
                    assert(groups_of(groups@) =~= groups_of(gpre) + head);
                }
            } else {
                proof {
                    assert(groups_of(groups@) =~= groups_of(gpre) + head);
                }
            }
            proof {
                assert(groups_of(groups@) + spec_groups_from(vf, order@, oi + 1)
                    =~= spec_groups_from(vf, order@, 0));
            }
            oi += 1;
        }
        proof {
            assert(spec_groups_from(vf, order@, order@.len() as int) =~= Seq::<GroupV>::empty());
            assert(groups_of(groups@) =~= spec_make_groups(vf));
        }
        let r = GroupedSelector { groups, cursor: 0 };
        proof {
            let ord = spec_type_order();
            let gs = spec_make_groups(vf);
            lemma_groups_from_shape(vf, ord, 0);
            lemma_type_order_complete(vf[0].project_type);
            let m = choose|m: int| 0 <= m < ord.len() && ord[m] == vf[0].project_type;
            lemma_filter_mem(vf, pt_pred(ord[m]), 0);
            assert(spec_items_for(vf, ord[m]).len() == spec_dirs_for(vf, ord[m]).len());
            lemma_groups_from_has(vf, ord, 0, m);
            assert(spec_total_lines(gs, 0) >= spec_group_lines(gs[0]));
            lemma_make_groups_partition(vf);
            spec_group_dirs(gs, 0).to_multiset_ensures();
            vf.to_multiset_ensures();
            assert(spec_group_dirs(gs, 0).len() == vf.len());
            lemma_item_count_dirs(gs, 0);
            lemma_groups_from_len(vf, ord, 0);
            lemma_expanded_count(gs, 0);
        }
        r
    }

    /// Every ticked entry, ecosystems in display order and entries within
    /// an ecosystem in their incoming order.
    pub fn selected(&self) -> (r: Vec<FoundDir>)
        ensures
            views_of(r@) == spec_selected_dirs(self@.groups, 0),
    {
        let ghost gs = self@.groups;
        let mut out: Vec<FoundDir> = Vec::new();
        let mut gi: usize = 0;
        proof {
            assert(views_of(out@) + spec_selected_dirs(gs, 0) =~= spec_selected_dirs(gs, 0));
        }
        while gi < self.groups.len()
            invariant
                gs == self@.groups,
                gs.len() == self.groups@.len(),
                gi <= gs.len(),
                views_of(out@) + spec_selected_dirs(gs, gi as int) == spec_selected_dirs(gs, 0),
            decreases gs.len() - gi,
        {
            let g = &self.groups[gi];
            let ghost items = gs[gi as int].items;
            let ghost base = out@;
            let mut ii: usize = 0;
            proof {
                assert(g@ == gs[gi as int]);
                assert(items.take(0) =~= Seq::<ItemV>::empty());
                lemma_filter_none(items.take(0), sel_pred());
                assert(views_of(out@) =~= views_of(base) + items.take(0).filter(
                    sel_pred(),
                ).map_values(dir_of()));
            }
            while ii < g.items.len()
                invariant
                    g@ == gs[gi as int],
                    items == gs[gi as int].items,
                    g.items@.len() == items.len(),
                    ii <= items.len(),
                    views_of(out@) == views_of(base) + items.take(ii as int).filter(
                        sel_pred(),
                    ).map_values(dir_of()),
                decreases g.items@.len() - ii,
            {
                let ghost pre = out@;
                proof {
                    assert(items[ii as int] == g.items@[ii as int]@);
                }
                if g.items[ii].selected {
                    out.push(g.items[ii].dir.duplicate());
                    proof {
                        assert(views_of(out@) =~= views_of(pre).push(items[ii as int].dir));
                    }
                }
                proof {
                    lemma_sel_snoc(items, ii as int);
                    assert(views_of(out@) =~= views_of(base) + items.take(ii + 1).filter(
                        sel_pred(),
                    ).map_values(dir_of()));
                }
                ii += 1;
            }
            proof {
                assert(items.take(items.len() as int) =~= items);
                assert(spec_selected_dirs(gs, gi as int) == items.filter(sel_pred()).map_values(
                    dir_of(),
                ) + spec_selected_dirs(gs, gi + 1));
                assert(views_of(out@) + spec_selected_dirs(gs, gi + 1) =~= spec_selected_dirs(
                    gs,
                    0,
                ));
            }
            gi += 1;
        }
        proof {
            assert(spec_selected_dirs(gs, gs.len() as int) =~= Seq::<FoundDirV>::empty());
            assert(views_of(out@) =~= spec_selected_dirs(gs, 0));
        }
        out
    }

    /// Ends the interaction, handing back every ticked entry.
    pub fn confirm(self) -> (r: Vec<FoundDir>)
        ensures
            views_of(r@) == spec_selected_dirs(self@.groups, 0),
    {
        self.selected()
    }

    /// Renders a byte count in human-readable binary-prefix notation.
    pub fn format_size(bytes: u64) -> (r: String)
        ensures
            r@ == crate::scanner::spec_format_size(bytes),
    {
        crate::scanner::format_size(bytes)
    }

    /// The groups, for rendering.
    pub fn groups(&self) -> (r: &Vec<Group>)
        ensures
            groups_of(r@) == self@.groups,
    {
        &self.groups
    }

    /// The cursor's visible line index, for rendering.
    pub fn cursor(&self) -> (r: usize)
        ensures
            r as int == self@.cursor,
    {
        self.cursor
    }
}

/// One key of the interactive session, after decoding.
pub enum SelectorKey {
    Up,
    Down,
    Toggle,
    Collapse,
    Confirm,
    Cancel,
}

/// What one key press leads to: carry on reading keys, or end the session
/// with the entries to hand back.
pub enum SelectorStep {
    Continue,
    Finished(Vec<FoundDir>),
}

impl GroupedSelector {
    /// Feeds one key press to the selector. Navigation and toggling carry
    /// on; confirming ends the session with every ticked entry; cancelling
    /// ends it with nothing, whatever was ticked before.
    pub fn step(&mut self, key: SelectorKey) -> (r: SelectorStep)
        requires
            old(self).wf(),
        ensures
            final(self).wf(),
            match key {
                SelectorKey::Up => final(self)@.groups == old(self)@.groups && final(self)@.cursor
                    == (if old(self)@.cursor > 0 {
                    old(self)@.cursor - 1
                } else {
                    0int
                }) && (r is Continue),
                SelectorKey::Down => final(self)@.groups == old(self)@.groups
                    && final(self)@.cursor == (if old(self)@.cursor + 1 < spec_total_lines(
                    old(self)@.groups,
                    0,
                ) {
                    old(self)@.cursor + 1
                } else {
                    old(self)@.cursor
                }) && (r is Continue),
                SelectorKey::Toggle => final(self)@.cursor == old(self)@.cursor && (r is Continue)
                    && ({
                    let gs = old(self)@.groups;
                    match spec_line_pos(gs, 0, old(self)@.cursor) {
                        LinePos::Header(g) => final(self)@.groups == gs.update(
                            g,
                            GroupV {
                                project_type: gs[g].project_type,
                                items: spec_toggle_items(gs[g].items),
                                collapsed: gs[g].collapsed,
                            },
                        ),
                        LinePos::Item(g, k) => final(self)@.groups == gs.update(
                            g,
                            GroupV {
                                project_type: gs[g].project_type,
                                items: gs[g].items.update(
                                    k,
                                    ItemV {
                                        dir: gs[g].items[k].dir,
                                        selected: !gs[g].items[k].selected,
                                    },
                                ),
                                collapsed: gs[g].collapsed,
                            },
                        ),
                    }
                }),
                SelectorKey::Collapse => final(self)@.cursor == old(self)@.cursor && (r
                    is Continue) && ({
                    let gs = old(self)@.groups;
                    match spec_line_pos(gs, 0, old(self)@.cursor) {
                        LinePos::Header(g) => final(self)@.groups == gs.update(
                            g,
                            GroupV {
                                project_type: gs[g].project_type,
                                items: gs[g].items,
                                collapsed: !gs[g].collapsed,
                            },
                        ),
                        LinePos::Item(g, k) => final(self)@.groups == gs,
                    }
                }),
                SelectorKey::Confirm => final(self)@ == old(self)@ && (r is Finished)
                    && views_of((r->0)@) == spec_selected_dirs(old(self)@.groups, 0),
                SelectorKey::Cancel => final(self)@ == old(self)@ && (r is Finished) && (r->0)@.len()
                    == 0,
            },
    {
        match key {
            SelectorKey::Up => {
                self.move_up();
                SelectorStep::Continue
            },
            SelectorKey::Down => {
                self.move_down();
                SelectorStep::Continue
            },
            SelectorKey::Toggle => {
                self.toggle_current();
                SelectorStep::Continue
            },
            SelectorKey::Collapse => {
                self.toggle_collapse();
                SelectorStep::Continue
            },
            SelectorKey::Confirm => SelectorStep::Finished(self.selected()),
            SelectorKey::Cancel => SelectorStep::Finished(Vec::new()),
        }
    }
}

/// The group a (category, entries) pair stands for.
pub open spec fn pair_group(pr: (ProjectType, Vec<FoundDir>)) -> GroupV {
    GroupV {
        project_type: pr.0,
        items: views_of(pr.1@).map_values(mk_item()),
        collapsed: false,
    }
}

/// The groups a list of pairs stands for.
pub open spec fn pair_groups(s: Seq<(ProjectType, Vec<FoundDir>)>) -> Seq<GroupV> {
    s.map_values(|pr: (ProjectType, Vec<FoundDir>)| pair_group(pr))
}

/// Partitions the entries by ecosystem in the fixed display order, one
/// (category, entries) pair per ecosystem that has at least one entry.
pub fn group_by_type(dirs: &Vec<FoundDir>) -> (r: Vec<(ProjectType, Vec<FoundDir>)>)
    ensures
        pair_groups(r@) == spec_make_groups(views_of(dirs@)),
{
    let ghost vf = views_of(dirs@);
    let order = ProjectType::all();
    let mut r: Vec<(ProjectType, Vec<FoundDir>)> = Vec::new();
    let mut oi: usize = 0;
    proof {
        assert(pair_groups(r@) + spec_groups_from(vf, order@, 0) =~= spec_groups_from(
            vf,
            order@,
            0,
        ));
    }
    while oi < order.len()
        invariant
            vf == views_of(dirs@),
            order@ == spec_type_order(),
            oi <= order@.len(),
            pair_groups(r@) + spec_groups_from(vf, order@, oi as int) == spec_groups_from(
                vf,
                order@,
                0,
            ),
        decreases order@.len() - oi,
    {
        let pt = order[oi];
        let ds = collect_dirs(dirs, pt);
        let ghost rpre = r@;
        let ghost head = (if spec_items_for(vf, pt).len() > 0 {
            seq![GroupV { project_type: pt, items: spec_items_for(vf, pt), collapsed: false }]
        } else {
            Seq::<GroupV>::empty()
        });
        proof {
            assert(order@[oi as int] == pt);
            assert(spec_items_for(vf, pt).len() == spec_dirs_for(vf, pt).len());
            assert(spec_groups_from(vf, order@, oi as int) == head + spec_groups_from(
                vf,
                order@,
                oi + 1,
            ));
        }
        if ds.len() > 0 {
            let ghost dsv = views_of(ds@);
            proof {
                assert(pair_group((pt, ds)) == head[0]) by {
                    assert(dsv.map_values(mk_item()) =~= spec_items_for(vf, pt));
                }
            }
            r.push((pt, ds));
            proof {
                assert(pair_groups(r@) =~= pair_groups(rpre) + head);
            }
        } else {
            proof {
                assert(pair_groups(r@) =~= pair_groups(rpre) + head);
            }
        }
        proof {
            assert(pair_groups(r@) + spec_groups_from(vf, order@, oi + 1) =~= spec_groups_from(
                vf,
                order@,
                0,
            ));
        }
        oi += 1;
    }
    proof {
        assert(spec_groups_from(vf, order@, order@.len() as int) =~= Seq::<GroupV>::empty());
        assert(pair_groups(r@) =~= spec_make_groups(vf));
    }
    r
}

/// With every item of every group ticked, the ticked entries are simply all
/// of them.
proof fn lemma_selected_all_groups(gs: Seq<GroupV>, i: int)
    requires
        forall|m: int| 0 <= m < gs.len() ==> spec_all_selected((#[trigger] gs[m]).items),
    ensures
        spec_selected_dirs(gs, i) == spec_group_dirs(gs, i),
    decreases gs.len() - i,
{
    if 0 <= i && i < gs.len() {
        lemma_selected_all_groups(gs, i + 1);
        assert(forall|k: int|
            0 <= k < gs[i].items.len() ==> sel_pred()(#[trigger] gs[i].items[k]));
        lemma_filter_all(gs[i].items, sel_pred());
    }
}

/// A fresh selector's state: every item ticked, no group folded or empty,
/// and the visible line count is the group count plus the item count.
pub proof fn lemma_fresh_selector_state(found: Seq<FoundDirV>)
    ensures
        forall|k: int|
            0 <= k < spec_make_groups(found).len() ==> {
                let g = #[trigger] spec_make_groups(found)[k];
                &&& !g.collapsed
                &&& spec_all_selected(g.items)
                &&& g.items.len() > 0
            },
        spec_total_lines(spec_make_groups(found), 0) == spec_make_groups(found).len()
            + spec_item_count(spec_make_groups(found), 0),
{
    lemma_groups_from_shape(found, spec_type_order(), 0);
    lemma_fresh_visible_lines(spec_make_groups(found));
}

/// Confirming a fresh selector, before any key press, hands back every
/// supplied entry.
pub proof fn lemma_confirm_default(found: Seq<FoundDirV>)
    ensures
        spec_selected_dirs(spec_make_groups(found), 0).to_multiset() == found.to_multiset(),
{
    lemma_groups_from_shape(found, spec_type_order(), 0);
    lemma_selected_all_groups(spec_make_groups(found), 0);
    lemma_make_groups_partition(found);
}

/// The confirmed selection reads only the items: two listings whose groups
/// hold the same items, tick for tick, hand back the same entries, whatever
/// their fold states or categories show.
pub proof fn lemma_selected_dirs_same_items(gs1: Seq<GroupV>, gs2: Seq<GroupV>, i: int)
    requires
        gs1.len() == gs2.len(),
        forall|m: int| 0 <= m < gs1.len() ==> (#[trigger] gs1[m]).items == gs2[m].items,
    ensures
        spec_selected_dirs(gs1, i) == spec_selected_dirs(gs2, i),
    decreases gs1.len() - i,
{
    if 0 <= i && i < gs1.len() {
        lemma_selected_dirs_same_items(gs1, gs2, i + 1);
    }
}

/// Folding a group hides exactly its items' lines, changes no tick, and
/// leaves the confirmed selection exactly as it was.
pub proof fn lemma_collapse_view_only(gs: Seq<GroupV>, g: int)
    requires
        0 <= g < gs.len(),
        !gs[g].collapsed,
    ensures
        ({
            let gs2 = gs.update(
                g,
                GroupV {
                    project_type: gs[g].project_type,
                    items: gs[g].items,
                    collapsed: true,
                },
            );
            &&& spec_total_lines(gs2, 0) + gs[g].items.len() == spec_total_lines(gs, 0)
            &&& forall|m: int| 0 <= m < gs.len() ==> (#[trigger] gs2[m]).items == gs[m].items
            &&& spec_selected_dirs(gs2, 0) == spec_selected_dirs(gs, 0)
        }),
{
    let g2 = GroupV { project_type: gs[g].project_type, items: gs[g].items, collapsed: true };
    lemma_lines_update(gs, g, g2, 0);
    lemma_selected_dirs_same_items(gs.update(g, g2), gs, 0);
}

} // verus!
