//! The contents panel: its rows, flat or as the parent hierarchy, and what
//! a click on one of them selects.

use vstd::prelude::*;

use crate::text::{chars_of, contains_chars, holds, lowercase_of, to_lowercase};

verus! {

/// What is selected in the editor: an entity, by its index, or a
/// constraint, by its place in the dupe's constraint list.
#[derive(Debug, Clone, Copy, PartialEq, Eq, Structural)]
pub enum Pick {
    Entity(u64),
    Constraint(usize),
}

/// The selection: the one thing picked, and the entities ticked with
/// Ctrl-clicks.
#[derive(Debug)]
pub struct Selection {
    pub pick: Option<Pick>,
    pub marked: Vec<u64>,
}

/// The first place `id` is ticked.
pub open spec fn marked_at(marked: Seq<u64>, id: u64, from: int) -> Option<int>
    decreases marked.len() - from,
{
    if from < 0 || from >= marked.len() {
        None
    } else if marked[from] == id {
        Some(from)
    } else {
        marked_at(marked, id, from + 1)
    }
}

/// The ticks after a Ctrl-click on entity `id`: its first tick taken off,
/// or a tick added at the end.
pub open spec fn ticked(marked: Seq<u64>, id: u64) -> Seq<u64> {
    match marked_at(marked, id, 0) {
        Some(at) => marked.remove(at),
        None => marked.push(id),
    }
}

impl Selection {
    /// A left click on entity row `id`. A click that a pending link takes
    /// (`linked`) selects nothing; with Ctrl held the entity's tick turns
    /// over; a click on the picked entity unpicks it; any other click picks
    /// it. Gives back whether the inspector's path is cleared.
    pub fn click_entity(&mut self, id: u64, linked: bool, command: bool) -> (cleared: bool)
        ensures
            linked ==> final(self).pick == old(self).pick && final(self).marked@ == old(self).marked@
                && !cleared,
            !linked && command ==> final(self).pick == old(self).pick && final(self).marked@
                == ticked(old(self).marked@, id) && !cleared,
            !linked && !command ==> final(self).marked@ == old(self).marked@ && cleared
                && final(self).pick == if old(self).pick == Some(Pick::Entity(id)) {
                None
            } else {
                Some(Pick::Entity(id))
            },
    {
        if linked {
            return false;
        }
        if command {
            let mut at: usize = 0;
            while at < self.marked.len()
                invariant
                    at <= self.marked.len(),
                    marked_at(self.marked@, id, 0) == marked_at(self.marked@, id, at as int),
                    self.marked@ == old(self).marked@,
                    self.pick == old(self).pick,
                    !linked,
                    command,
                decreases self.marked.len() - at,
            {
                if self.marked[at] == id {
                    self.marked.remove(at);
                    return false;
                }
                at = at + 1;
            }
            self.marked.push(id);
            return false;
        }
        if self.pick == Some(Pick::Entity(id)) {
            self.pick = None;
        } else {
            self.pick = Some(Pick::Entity(id));
        }
        true
    }

    /// A right-click or double-click on entity row `id`: it is picked, and
    /// the menu opens on it.
    pub fn menu_on_entity(&mut self, id: u64)
        ensures
            final(self).pick == Some(Pick::Entity(id)),
            final(self).marked@ == old(self).marked@,
    {
        self.pick = Some(Pick::Entity(id));
    }

    /// A click on constraint row `at`: picks it, or unpicks it when it was
    /// picked. The inspector's path is cleared either way.
    pub fn click_constraint(&mut self, at: usize)
        ensures
            final(self).pick == if old(self).pick == Some(Pick::Constraint(at)) {
                None
            } else {
                Some(Pick::Constraint(at))
            },
            final(self).marked@ == old(self).marked@,
    {
        if self.pick == Some(Pick::Constraint(at)) {
            self.pick = None;
        } else {
            self.pick = Some(Pick::Constraint(at));
        }
    }

    /// Whether entity row `id` shows as selected: picked, or ticked.
    pub fn shows_selected(&self, id: u64) -> (r: bool)
        ensures
            r == (self.pick == Some(Pick::Entity(id)) || self.marked@.contains(id)),
    {
        if self.pick == Some(Pick::Entity(id)) {
            return true;
        }
        let mut at: usize = 0;
        while at < self.marked.len()
            invariant
                at <= self.marked.len(),
                forall|j: int| 0 <= j < at ==> self.marked@[j] != id,
            decreases self.marked.len() - at,
        {
            if self.marked[at] == id {
                assert(self.marked@[at as int] == id);
                return true;
            }
            at = at + 1;
        }
        false
    }
}

/// Two Ctrl-clicks on an entity not ticked leave the ticks as they were.
pub proof fn lemma_clicks_undo(marked: Seq<u64>, id: u64)
    requires
        !marked.contains(id),
    ensures
        ticked(ticked(marked, id), id) == marked,
{
    assert forall|j: int| 0 <= j < marked.len() implies marked[j] != id by {
        if marked[j] == id {
            assert(marked.contains(id));
        }
    }
    lemma_marked_at_none(marked, id, 0);
    let p = marked.push(id);
    lemma_marked_at_first(p, id, 0, marked.len() as int);
    assert(p.remove(marked.len() as int) =~= marked);
}

proof fn lemma_marked_at_none(marked: Seq<u64>, id: u64, from: int)
    requires
        0 <= from,
        forall|j: int| 0 <= j < marked.len() ==> marked[j] != id,
    ensures
        marked_at(marked, id, from) is None,
    decreases marked.len() - from,
{
    if from < marked.len() {
        lemma_marked_at_none(marked, id, from + 1);
    }
}

proof fn lemma_marked_at_first(marked: Seq<u64>, id: u64, from: int, at: int)
    requires
        0 <= from <= at < marked.len(),
        marked[at] == id,
        forall|j: int| from <= j < at ==> marked[j] != id,
    ensures
        marked_at(marked, id, from) == Some(at),
    decreases at - from,
{
    if from < at {
        lemma_marked_at_first(marked, id, from + 1, at);
    }
}

/// One entity as the contents panel reads it: its index, its row text, and
/// the index its `DupeParentID` names, if any.
pub type Entity = (u64, String, Option<u64>);

/// Some entity has index `id`.
pub open spec fn present(ents: Seq<Entity>, id: u64) -> bool {
    exists|j: int| 0 <= j < ents.len() && ents[j].0 == id
}

/// Entity `k` names a parent that is in the dupe.
pub open spec fn has_parent(ents: Seq<Entity>, k: int) -> bool {
    match ents[k].2 {
        Some(p) => present(ents, p),
        None => false,
    }
}

/// Entity `j` is a child of entity `k`.
pub open spec fn child_of(ents: Seq<Entity>, j: int, k: int) -> bool {
    has_parent(ents, j) && ents[j].2 == Some(ents[k].0)
}

/// Where entity `j` goes among `s` kept in index order: before the first
/// with a higher index.
pub open spec fn id_slot(ents: Seq<Entity>, s: Seq<int>, j: int, from: int) -> int
    decreases s.len() - from,
{
    if from < 0 || from >= s.len() {
        s.len() as int
    } else if ents[s[from]].0 > ents[j].0 {
        from
    } else {
        id_slot(ents, s, j, from + 1)
    }
}

/// The children of entity `k` among the first `n`, in index order.
pub open spec fn kids_upto(ents: Seq<Entity>, k: int, n: int) -> Seq<int>
    decreases n,
{
    if n <= 0 {
        Seq::empty()
    } else {
        let s = kids_upto(ents, k, n - 1);
        if child_of(ents, n - 1, k) {
            s.insert(id_slot(ents, s, n - 1, 0), n - 1)
        } else {
            s
        }
    }
}

/// The children of entity `k`, in index order.
pub open spec fn kids(ents: Seq<Entity>, k: int) -> Seq<int> {
    kids_upto(ents, k, ents.len() as int)
}

/// Root `a` comes before root `b`: it has more children, or as many and a
/// lower index, so the hull leads.
pub open spec fn root_before(ents: Seq<Entity>, a: int, b: int) -> bool {
    kids(ents, a).len() > kids(ents, b).len() || (kids(ents, a).len() == kids(ents, b).len()
        && ents[a].0 < ents[b].0)
}

/// Where root `j` goes among the roots `s`: before the first it comes
/// before.
pub open spec fn root_slot(ents: Seq<Entity>, s: Seq<int>, j: int, from: int) -> int
    decreases s.len() - from,
{
    if from < 0 || from >= s.len() {
        s.len() as int
    } else if root_before(ents, j, s[from]) {
        from
    } else {
        root_slot(ents, s, j, from + 1)
    }
}

/// The entities without a parent in the dupe among the first `n`, most
/// children first, then by index.
pub open spec fn roots_upto(ents: Seq<Entity>, n: int) -> Seq<int>
    decreases n,
{
    if n <= 0 {
        Seq::empty()
    } else {
        let s = roots_upto(ents, n - 1);
        if !has_parent(ents, n - 1) {
            s.insert(root_slot(ents, s, n - 1, 0), n - 1)
        } else {
            s
        }
    }
}

/// The entities without a parent in the dupe, most children first.
pub open spec fn roots(ents: Seq<Entity>) -> Seq<int> {
    roots_upto(ents, ents.len() as int)
}

/// A row passes the filter: the filter, lowercased, is empty or stands in
/// the row's text, lowercased.
pub open spec fn passes(row: Seq<char>, filter: Seq<char>) -> bool {
    lowercase_of(filter).len() == 0 || holds(lowercase_of(row), lowercase_of(filter))
}

/// A row as the panel shows it: index, text, depth.
pub type RowView = (u64, Seq<char>, nat);

/// The rows of entity `k` and everything under it, depth first, children
/// in index order; rows that fail the filter are left out but their
/// children are not. `fuel` bounds the depth.
pub open spec fn walk(ents: Seq<Entity>, filter: Seq<char>, k: int, depth: nat, fuel: nat) -> Seq<RowView>
    decreases fuel, 0nat,
{
    if fuel == 0 {
        Seq::empty()
    } else {
        let own: Seq<RowView> = if passes(ents[k].1@, filter) {
            seq![(ents[k].0, ents[k].1@, depth)]
        } else {
            Seq::empty()
        };
        own + walk_all(ents, filter, kids(ents, k), depth + 1, (fuel - 1) as nat)
    }
}

/// The rows of the entities `ks` and everything under them, in turn.
pub open spec fn walk_all(ents: Seq<Entity>, filter: Seq<char>, ks: Seq<int>, depth: nat, fuel: nat) -> Seq<RowView>
    decreases fuel, ks.len(),
{
    if ks.len() == 0 {
        Seq::empty()
    } else {
        walk_all(ents, filter, ks.drop_last(), depth, fuel) + walk(ents, filter, ks.last(), depth, fuel)
    }
}

/// The rows of the parent hierarchy: each root with everything under it.
/// No chain of parents is longer than the number of entities, so a depth
/// bound of that number cuts nothing.
pub open spec fn tree_order(ents: Seq<Entity>, filter: Seq<char>) -> Seq<RowView> {
    walk_all(ents, filter, roots(ents), 0, ents.len() as nat)
}

/// Entity `j` hangs directly under the end of `path`: a root when the path
/// is empty, else a child of its last entity.
pub open spec fn hangs_under(ents: Seq<Entity>, path: Seq<int>, j: int) -> bool {
    if path.len() == 0 {
        !has_parent(ents, j)
    } else {
        child_of(ents, j, path.last())
    }
}

/// `path` runs down from a root: distinct entities, each a child of the one
/// before.
pub open spec fn is_descent(ents: Seq<Entity>, path: Seq<int>) -> bool {
    &&& path.no_duplicates()
    &&& forall|m: int| 0 <= m < path.len() ==> 0 <= #[trigger] path[m] < ents.len()
    &&& path.len() > 0 ==> !has_parent(ents, path[0])
    &&& forall|m: int| 0 < m < path.len() ==> child_of(ents, #[trigger] path[m], path[m - 1])
}

/// No two entities share an index.
pub open spec fn ids_distinct(ents: Seq<Entity>) -> bool {
    forall|a: int, b: int| 0 <= a < b < ents.len() ==> ents[a].0 != ents[b].0
}

proof fn lemma_id_slot_range(ents: Seq<Entity>, s: Seq<int>, j: int, from: int)
    requires
        0 <= from,
    ensures
        0 <= id_slot(ents, s, j, from) <= s.len(),
    decreases s.len() - from,
{
    if from < s.len() {
        lemma_id_slot_range(ents, s, j, from + 1);
    }
}

proof fn lemma_root_slot_range(ents: Seq<Entity>, s: Seq<int>, j: int, from: int)
    requires
        0 <= from,
    ensures
        0 <= root_slot(ents, s, j, from) <= s.len(),
    decreases s.len() - from,
{
    if from < s.len() {
        lemma_root_slot_range(ents, s, j, from + 1);
    }
}

/// The children that `kids_upto` lists are entities, children of `k`.
proof fn lemma_kids_upto_members(ents: Seq<Entity>, k: int, n: int)
    requires
        n <= ents.len(),
    ensures
        forall|m: int|
            0 <= m < kids_upto(ents, k, n).len() ==> 0 <= #[trigger] kids_upto(ents, k, n)[m] < n
                && child_of(ents, kids_upto(ents, k, n)[m], k),
    decreases n,
{
    if n > 0 {
        lemma_kids_upto_members(ents, k, n - 1);
        let s = kids_upto(ents, k, n - 1);
        if child_of(ents, n - 1, k) {
            lemma_id_slot_range(ents, s, n - 1, 0);
        }
    }
}

/// The roots that `roots_upto` lists are entities without a parent.
proof fn lemma_roots_upto_members(ents: Seq<Entity>, n: int)
    requires
        n <= ents.len(),
    ensures
        forall|m: int|
            0 <= m < roots_upto(ents, n).len() ==> 0 <= #[trigger] roots_upto(ents, n)[m] < n
                && !has_parent(ents, roots_upto(ents, n)[m]),
    decreases n,
{
    if n > 0 {
        lemma_roots_upto_members(ents, n - 1);
        let s = roots_upto(ents, n - 1);
        if !has_parent(ents, n - 1) {
            lemma_root_slot_range(ents, s, n - 1, 0);
        }
    }
}

/// A descent is no longer than the number of entities.
proof fn lemma_descent_fits(ents: Seq<Entity>, path: Seq<int>)
    requires
        is_descent(ents, path),
    ensures
        path.len() <= ents.len(),
{
    let all = vstd::set_lib::set_int_range(0, ents.len() as int);
    path.unique_seq_to_set();
    vstd::set_lib::lemma_int_range(0, ents.len() as int);
    assert forall|x: int| path.to_set().contains(x) implies all.contains(x) by {
        let m = choose|m: int| 0 <= m < path.len() && path[m] == x;
        assert(0 <= path[m] < ents.len());
    }
    vstd::set_lib::lemma_len_subset(path.to_set(), all);
}

/// An entity hanging under the end of a descent extends it.
proof fn lemma_descent_extends(ents: Seq<Entity>, path: Seq<int>, j: int)
    requires
        ids_distinct(ents),
        is_descent(ents, path),
        0 <= j < ents.len(),
        hangs_under(ents, path, j),
    ensures
        is_descent(ents, path.push(j)),
{
    let q = path.push(j);
    if path.len() > 0 {
        let last = path.last();
        assert forall|i: int| 0 <= i < path.len() implies path[i] != j by {
            if path[i] == j {
                if i == 0 {
                    assert(has_parent(ents, j));
                } else {
                    let up = path[i - 1];
                    assert(child_of(ents, path[i], up));
                    assert(ents[up].0 == ents[last].0);
                    assert(0 <= up < ents.len());
                    assert(up == last);
                    assert(path[i - 1] == path[path.len() - 1]);
                }
            }
        }
        assert forall|m: int| 0 < m < q.len() implies child_of(ents, #[trigger] q[m], q[m - 1]) by {
            if m < path.len() {
                assert(child_of(ents, path[m], path[m - 1]));
            }
        }
    }
    assert(q.no_duplicates());
}

/// A depth bound at or above what is left of the entities below a descent
/// gives the same rows as any other such bound.
proof fn lemma_walk_all_fuel(
    ents: Seq<Entity>,
    filter: Seq<char>,
    path: Seq<int>,
    ks: Seq<int>,
    f1: nat,
    f2: nat,
)
    requires
        ids_distinct(ents),
        is_descent(ents, path),
        forall|m: int| 0 <= m < ks.len() ==> 0 <= #[trigger] ks[m] < ents.len() && hangs_under(ents, path, ks[m]),
        f1 >= ents.len() - path.len(),
        f2 >= ents.len() - path.len(),
    ensures
        walk_all(ents, filter, ks, path.len() as nat, f1) == walk_all(ents, filter, ks, path.len() as nat, f2),
    decreases ents.len() - path.len(), ks.len(),
{
    if ks.len() > 0 {
        lemma_walk_all_fuel(ents, filter, path, ks.drop_last(), f1, f2);
        let k = ks.last();
        assert(0 <= ks[ks.len() - 1] < ents.len());
        lemma_descent_extends(ents, path, k);
        let down = path.push(k);
        lemma_descent_fits(ents, down);
        lemma_kids_upto_members(ents, k, ents.len() as int);
        let kk = kids(ents, k);
        assert forall|m: int| 0 <= m < kk.len() implies 0 <= #[trigger] kk[m] < ents.len() && hangs_under(ents, down, kk[m]) by {
            assert(down.last() == k);
        }
        lemma_walk_all_fuel(ents, filter, down, kk, (f1 - 1) as nat, (f2 - 1) as nat);
        let d = path.len() as nat;
        assert(down.len() as nat == d + 1);
        assert(f1 >= 1 && f2 >= 1);
        assert(walk(ents, filter, k, d, f1) == walk(ents, filter, k, d, f2));
    }
}

/// The hierarchy's depth bound cuts nothing: with indices that do not
/// repeat, any bound at least the number of entities gives the rows of
/// `tree_order`, since no entity lies deeper below a root than that.
pub proof fn lemma_tree_depth_suffices(ents: Seq<Entity>, filter: Seq<char>, fuel: nat)
    requires
        ids_distinct(ents),
        fuel >= ents.len(),
    ensures
        walk_all(ents, filter, roots(ents), 0, fuel) == tree_order(ents, filter),
{
    lemma_roots_upto_members(ents, ents.len() as int);
    let path = Seq::<int>::empty();
    assert(is_descent(ents, path));
    lemma_walk_all_fuel(ents, filter, path, roots(ents), fuel, ents.len() as nat);
}

proof fn lemma_root_slot_facts(ents: Seq<Entity>, s: Seq<int>, j: int, from: int)
    requires
        0 <= from <= s.len(),
        forall|m: int| 0 <= m < from ==> !root_before(ents, j, #[trigger] s[m]),
    ensures
        from <= root_slot(ents, s, j, from) <= s.len(),
        forall|m: int| 0 <= m < root_slot(ents, s, j, from) ==> !root_before(ents, j, #[trigger] s[m]),
        root_slot(ents, s, j, from) < s.len() ==> root_before(ents, j, s[root_slot(ents, s, j, from)]),
    decreases s.len() - from,
{
    if from < s.len() && !root_before(ents, j, s[from]) {
        lemma_root_slot_facts(ents, s, j, from + 1);
    }
}

proof fn lemma_id_slot_facts(ents: Seq<Entity>, s: Seq<int>, j: int, from: int)
    requires
        0 <= from <= s.len(),
        forall|m: int| 0 <= m < from ==> ents[#[trigger] s[m]].0 <= ents[j].0,
    ensures
        from <= id_slot(ents, s, j, from) <= s.len(),
        forall|m: int| 0 <= m < id_slot(ents, s, j, from) ==> ents[#[trigger] s[m]].0 <= ents[j].0,
        id_slot(ents, s, j, from) < s.len() ==> ents[s[id_slot(ents, s, j, from)]].0 > ents[j].0,
    decreases s.len() - from,
{
    if from < s.len() && ents[s[from]].0 <= ents[j].0 {
        lemma_id_slot_facts(ents, s, j, from + 1);
    }
}

/// The roots among the first `n` come in the hierarchy's order.
proof fn lemma_roots_upto_sorted(ents: Seq<Entity>, n: int)
    requires
        ids_distinct(ents),
        n <= ents.len(),
    ensures
        forall|a: int, b: int|
            0 <= a < b < roots_upto(ents, n).len() ==> root_before(
                ents,
                #[trigger] roots_upto(ents, n)[a],
                #[trigger] roots_upto(ents, n)[b],
            ),
    decreases n,
{
    if n > 0 {
        lemma_roots_upto_sorted(ents, n - 1);
        lemma_roots_upto_members(ents, n - 1);
        let s = roots_upto(ents, n - 1);
        let j = n - 1;
        if !has_parent(ents, j) {
            lemma_root_slot_facts(ents, s, j, 0);
            let r = root_slot(ents, s, j, 0);
            let t = s.insert(r, j);
            assert(t == roots_upto(ents, n));
            assert forall|a: int, b: int| 0 <= a < b < t.len() implies root_before(
                ents,
                #[trigger] t[a],
                #[trigger] t[b],
            ) by {
                if b < r {
                    assert(t[a] == s[a] && t[b] == s[b]);
                } else if b == r {
                    assert(t[a] == s[a] && t[b] == j);
                    assert(!root_before(ents, j, s[a]));
                    assert(0 <= s[a] < n - 1);
                    assert(ents[s[a]].0 != ents[j].0);
                } else if a < r {
                    assert(t[a] == s[a] && t[b] == s[b - 1]);
                } else if a == r {
                    assert(t[a] == j && t[b] == s[b - 1]);
                    assert(root_before(ents, j, s[r]));
                    if r < b - 1 {
                        assert(root_before(ents, s[r], s[b - 1]));
                    }
                } else {
                    assert(t[a] == s[a - 1] && t[b] == s[b - 1]);
                }
            }
        }
    }
}

/// The children of `k` among the first `n` come in index order.
proof fn lemma_kids_upto_sorted(ents: Seq<Entity>, k: int, n: int)
    requires
        n <= ents.len(),
    ensures
        forall|a: int, b: int|
            0 <= a < b < kids_upto(ents, k, n).len() ==> ents[#[trigger] kids_upto(ents, k, n)[a]].0
                <= ents[#[trigger] kids_upto(ents, k, n)[b]].0,
    decreases n,
{
    if n > 0 {
        lemma_kids_upto_sorted(ents, k, n - 1);
        let s = kids_upto(ents, k, n - 1);
        let j = n - 1;
        if child_of(ents, j, k) {
            lemma_id_slot_facts(ents, s, j, 0);
            let r = id_slot(ents, s, j, 0);
            let t = s.insert(r, j);
            assert(t == kids_upto(ents, k, n));
            assert forall|a: int, b: int| 0 <= a < b < t.len() implies ents[#[trigger] t[a]].0
                <= ents[#[trigger] t[b]].0 by {
                if b < r {
                    assert(t[a] == s[a] && t[b] == s[b]);
                } else if b == r {
                    assert(t[a] == s[a] && t[b] == j);
                } else if a < r {
                    assert(t[a] == s[a] && t[b] == s[b - 1]);
                } else if a == r {
                    assert(t[a] == j && t[b] == s[b - 1]);
                    if r < b - 1 {
                        assert(ents[s[r]].0 <= ents[s[b - 1]].0);
                    }
                } else {
                    assert(t[a] == s[a - 1] && t[b] == s[b - 1]);
                }
            }
        }
    }
}

/// The roots of the hierarchy lead with the most children: of two roots,
/// the earlier has more children, or as many and a lower index. So the
/// hull, which carries the most parts, comes first.
pub proof fn lemma_roots_lead_by_children(ents: Seq<Entity>)
    requires
        ids_distinct(ents),
    ensures
        forall|a: int, b: int|
            0 <= a < b < roots(ents).len() ==> kids(ents, #[trigger] roots(ents)[a]).len() > kids(
                ents,
                #[trigger] roots(ents)[b],
            ).len() || (kids(ents, roots(ents)[a]).len() == kids(ents, roots(ents)[b]).len()
                && ents[roots(ents)[a]].0 < ents[roots(ents)[b]].0),
{
    lemma_roots_upto_sorted(ents, ents.len() as int);
}

/// The roots of the hierarchy are exactly the entities whose parent is not
/// in the dupe, each once.
pub proof fn lemma_roots_are_the_parentless(ents: Seq<Entity>)
    requires
        ids_distinct(ents),
    ensures
        forall|m: int|
            0 <= m < roots(ents).len() ==> 0 <= #[trigger] roots(ents)[m] < ents.len() && !has_parent(
                ents,
                roots(ents)[m],
            ),
        forall|j: int| 0 <= j < ents.len() && !has_parent(ents, j) ==> roots(ents).contains(j),
        roots(ents).no_duplicates(),
{
    lemma_roots_upto_members(ents, ents.len() as int);
    lemma_roots_upto_complete(ents, ents.len() as int);
    lemma_roots_upto_sorted(ents, ents.len() as int);
    let r = roots(ents);
    assert forall|a: int, b: int| 0 <= a < r.len() && 0 <= b < r.len() && a != b implies r[a] != r[b] by {
        if a < b {
            assert(root_before(ents, r[a], r[b]));
        } else {
            assert(root_before(ents, r[b], r[a]));
        }
    }
}

proof fn lemma_roots_upto_complete(ents: Seq<Entity>, n: int)
    requires
        n <= ents.len(),
    ensures
        forall|j: int| 0 <= j < n && !has_parent(ents, j) ==> roots_upto(ents, n).contains(j),
    decreases n,
{
    if n > 0 {
        lemma_roots_upto_complete(ents, n - 1);
        let s = roots_upto(ents, n - 1);
        if !has_parent(ents, n - 1) {
            lemma_root_slot_range(ents, s, n - 1, 0);
            let r = root_slot(ents, s, n - 1, 0);
            let t = s.insert(r, n - 1);
            assert forall|j: int| 0 <= j < n && !has_parent(ents, j) implies t.contains(j) by {
                if j == n - 1 {
                    assert(t[r] == j);
                } else {
                    let m = choose|m: int| 0 <= m < s.len() && s[m] == j;
                    if m < r {
                        assert(t[m] == j);
                    } else {
                        assert(t[m + 1] == j);
                    }
                }
            }
        }
    }
}

/// The children under an entity come in index order, and are exactly the
/// entities whose parent it is.
pub proof fn lemma_kids_in_index_order(ents: Seq<Entity>, k: int)
    requires
        0 <= k < ents.len(),
    ensures
        forall|a: int, b: int|
            0 <= a < b < kids(ents, k).len() ==> ents[#[trigger] kids(ents, k)[a]].0 <= ents[#[trigger] kids(
                ents,
                k,
            )[b]].0,
        forall|m: int|
            0 <= m < kids(ents, k).len() ==> 0 <= #[trigger] kids(ents, k)[m] < ents.len() && child_of(
                ents,
                kids(ents, k)[m],
                k,
            ),
{
    lemma_kids_upto_sorted(ents, k, ents.len() as int);
    lemma_kids_upto_members(ents, k, ents.len() as int);
}

/// The filter reads rows case aside: a row passes exactly when the filter,
/// lowercased, is empty or stands in the row lowercased; so two rows that
/// read alike lowercased pass or fail alike.
pub proof fn lemma_filter_ignores_case(a: Seq<char>, b: Seq<char>, filter: Seq<char>)
    ensures
        passes(a, filter) == (lowercase_of(filter).len() == 0 || holds(lowercase_of(a), lowercase_of(filter))),
        lowercase_of(a) == lowercase_of(b) ==> passes(a, filter) == passes(b, filter),
{
}

/// Each entity's row at depth 0, in dupe order.
pub open spec fn depth0_rows(ents: Seq<Entity>) -> Seq<RowView> {
    ents.map_values(|e: Entity| (e.0, e.1@, 0nat))
}

/// The flat list is the entities whose row text, lowercased, holds the
/// lowercased filter (or all when it is empty), each at depth 0: every row
/// is such an entity's, and every such entity has its row.
pub proof fn lemma_flat_rows_are_the_passing(ents: Seq<Entity>, filter: Seq<char>)
    ensures
        forall|i: int|
            0 <= i < flat_order(ents, filter).len() ==> depth0_rows(ents).contains(
                #[trigger] flat_order(ents, filter)[i],
            ) && (lowercase_of(filter).len() == 0 || holds(
                lowercase_of(flat_order(ents, filter)[i].1),
                lowercase_of(filter),
            )),
        forall|j: int|
            0 <= j < ents.len() && (lowercase_of(filter).len() == 0 || holds(
                lowercase_of(ents[j].1@),
                lowercase_of(filter),
            )) ==> flat_order(ents, filter).contains(#[trigger] depth0_rows(ents)[j]),
    decreases ents.len(),
{
    if ents.len() > 0 {
        let rest = ents.drop_last();
        lemma_flat_rows_are_the_passing(rest, filter);
        let f = flat_order(ents, filter);
        let g = flat_order(rest, filter);
        let all = depth0_rows(ents);
        let part = depth0_rows(rest);
        assert forall|i: int| 0 <= i < f.len() implies all.contains(#[trigger] f[i]) && (lowercase_of(
            filter,
        ).len() == 0 || holds(lowercase_of(f[i].1), lowercase_of(filter))) by {
            if i < g.len() {
                assert(f[i] == g[i]);
                assert(part.contains(g[i]));
                let m = choose|m: int| 0 <= m < part.len() && part[m] == g[i];
                assert(all[m] == part[m]);
            } else {
                assert(all[ents.len() - 1] == f[i]);
            }
        }
        assert forall|j: int|
            0 <= j < ents.len() && (lowercase_of(filter).len() == 0 || holds(
                lowercase_of(ents[j].1@),
                lowercase_of(filter),
            )) implies f.contains(#[trigger] all[j]) by {
            if j < rest.len() {
                assert(all[j] == part[j]);
                assert(g.contains(part[j]));
                let i = choose|i: int| 0 <= i < g.len() && g[i] == part[j];
                assert(f[i] == g[i]);
            } else {
                assert(f[f.len() - 1] == all[j]);
            }
        }
    }
}

/// The flat rows: every entity that passes the filter, in dupe order.
pub open spec fn flat_order(ents: Seq<Entity>, filter: Seq<char>) -> Seq<RowView>
    decreases ents.len(),
{
    if ents.len() == 0 {
        Seq::empty()
    } else if passes(ents.last().1@, filter) {
        flat_order(ents.drop_last(), filter).push((ents.last().0, ents.last().1@, 0nat))
    } else {
        flat_order(ents.drop_last(), filter)
    }
}

/// Rows as the panel reads them.
pub open spec fn rows_view(rows: Seq<(u64, String, usize)>) -> Seq<RowView> {
    rows.map_values(|r: (u64, String, usize)| (r.0, r.1@, r.2 as nat))
}

/// Whether entity `id` is among `ents`.
fn is_present(ents: &Vec<Entity>, id: u64) -> (r: bool)
    ensures
        r == present(ents@, id),
{
    let mut j: usize = 0;
    while j < ents.len()
        invariant
            j <= ents.len(),
            forall|i: int| 0 <= i < j ==> ents@[i].0 != id,
        decreases ents.len() - j,
    {
        if ents[j].0 == id {
            return true;
        }
        j = j + 1;
    }
    false
}

/// For each entity, whether its parent is in the dupe.
fn parent_flags(ents: &Vec<Entity>) -> (r: Vec<bool>)
    ensures
        r.len() == ents.len(),
        forall|k: int| 0 <= k < r.len() ==> r@[k] == has_parent(ents@, k),
{
    let mut r: Vec<bool> = Vec::new();
    let mut k: usize = 0;
    while k < ents.len()
        invariant
            k <= ents.len(),
            r.len() == k,
            forall|i: int| 0 <= i < k ==> r@[i] == has_parent(ents@, i),
        decreases ents.len() - k,
    {
        let f = match ents[k].2 {
            Some(p) => is_present(ents, p),
            None => false,
        };
        r.push(f);
        k = k + 1;
    }
    r
}

/// Sequences of places, as the specs read them.
pub open spec fn places(v: Seq<usize>) -> Seq<int> {
    v.map_values(|x: usize| x as int)
}

/// The children of entity `k`, in index order.
fn kids_of(ents: &Vec<Entity>, flags: &Vec<bool>, k: usize) -> (r: Vec<usize>)
    requires
        k < ents.len(),
        flags.len() == ents.len(),
        forall|i: int| 0 <= i < flags.len() ==> flags@[i] == has_parent(ents@, i),
    ensures
        places(r@) == kids(ents@, k as int),
        forall|i: int| 0 <= i < r.len() ==> r@[i] < ents.len(),
{
    let mut r: Vec<usize> = Vec::new();
    let mut n: usize = 0;
    while n < ents.len()
        invariant
            k < ents.len(),
            n <= ents.len(),
            flags.len() == ents.len(),
            forall|i: int| 0 <= i < flags.len() ==> flags@[i] == has_parent(ents@, i),
            places(r@) == kids_upto(ents@, k as int, n as int),
            forall|i: int| 0 <= i < r.len() ==> r@[i] < n,
        decreases ents.len() - n,
    {
        if flags[n] && ents[n].2 == Some(ents[k].0) {
            let ghost s = places(r@);
            let mut p: usize = 0;
            while p < r.len() && ents[r[p]].0 <= ents[n].0
                invariant
                    p <= r.len(),
                    n < ents.len(),
                    forall|i: int| 0 <= i < r.len() ==> r@[i] < n,
                    s == places(r@),
                    id_slot(ents@, s, n as int, 0) == id_slot(ents@, s, n as int, p as int),
                decreases r.len() - p,
            {
                p = p + 1;
            }
            r.insert(p, n);
            assert(places(r@) =~= s.insert(p as int, n as int));
        }
        n = n + 1;
    }
    r
}

/// The entities without a parent in the dupe, most children first.
fn roots_of(ents: &Vec<Entity>, flags: &Vec<bool>, counts: &Vec<usize>) -> (r: Vec<usize>)
    requires
        flags.len() == ents.len(),
        counts.len() == ents.len(),
        forall|i: int| 0 <= i < flags.len() ==> flags@[i] == has_parent(ents@, i),
        forall|i: int| 0 <= i < counts.len() ==> counts@[i] == kids(ents@, i).len(),
    ensures
        places(r@) == roots(ents@),
        forall|i: int| 0 <= i < r.len() ==> r@[i] < ents.len(),
{
    let mut r: Vec<usize> = Vec::new();
    let mut n: usize = 0;
    while n < ents.len()
        invariant
            n <= ents.len(),
            flags.len() == ents.len(),
            counts.len() == ents.len(),
            forall|i: int| 0 <= i < flags.len() ==> flags@[i] == has_parent(ents@, i),
            forall|i: int| 0 <= i < counts.len() ==> counts@[i] == kids(ents@, i).len(),
            places(r@) == roots_upto(ents@, n as int),
            forall|i: int| 0 <= i < r.len() ==> r@[i] < n,
        decreases ents.len() - n,
    {
        if !flags[n] {
            let ghost s = places(r@);
            let mut p: usize = 0;
            while p < r.len() && !(counts[n] > counts[r[p]] || (counts[n] == counts[r[p]] && ents[n].0 < ents[r[p]].0))
                invariant
                    p <= r.len(),
                    n < ents.len(),
                    counts.len() == ents.len(),
                    forall|i: int| 0 <= i < counts.len() ==> counts@[i] == kids(ents@, i).len(),
                    forall|i: int| 0 <= i < r.len() ==> r@[i] < n,
                    s == places(r@),
                    root_slot(ents@, s, n as int, 0) == root_slot(ents@, s, n as int, p as int),
                decreases r.len() - p,
            {
                p = p + 1;
            }
            r.insert(p, n);
            assert(places(r@) =~= s.insert(p as int, n as int));
        }
        n = n + 1;
    }
    r
}

/// Appends the rows of entity `k` and everything under it.
fn walk_rows(
    ents: &Vec<Entity>,
    lower_filter: &Vec<char>,
    filter: Ghost<Seq<char>>,
    kid_lists: &Vec<Vec<usize>>,
    k: usize,
    depth: usize,
    fuel: usize,
    out: &mut Vec<(u64, String, usize)>,
)
    requires
        k < ents.len(),
        lower_filter@ == lowercase_of(filter@),
        kid_lists.len() == ents.len(),
        forall|i: int| 0 <= i < kid_lists.len() ==> places(#[trigger] kid_lists@[i]@) == kids(ents@, i),
        forall|i: int, j: int|
            0 <= i < kid_lists.len() && 0 <= j < kid_lists@[i].len() ==> #[trigger] kid_lists@[i]@[j]
                < ents.len(),
        depth + fuel <= ents.len(),
    ensures
        rows_view(final(out)@) == rows_view(old(out)@) + walk(ents@, filter@, k as int, depth as nat, fuel as nat),
    decreases fuel,
{
    if fuel == 0 {
        assert(rows_view(out@) =~= rows_view(out@) + Seq::<RowView>::empty());
        return;
    }
    let ghost start = rows_view(out@);
    let shown = row_passes(&ents[k].1, lower_filter, filter);
    let ghost own: Seq<RowView> = if passes(ents@[k as int].1@, filter@) {
        seq![(ents@[k as int].0, ents@[k as int].1@, depth as nat)]
    } else {
        Seq::empty()
    };
    if shown {
        let row = (ents[k].0, ents[k].1.clone(), depth);
        out.push(row);
    }
    assert(rows_view(out@) =~= start + own);
    let ks = &kid_lists[k];
    let ghost kseq = kids(ents@, k as int);
    let mut i: usize = 0;
    while i < ks.len()
        invariant
            k < ents.len(),
            i <= ks.len(),
            fuel >= 1,
            depth + fuel <= ents.len(),
            lower_filter@ == lowercase_of(filter@),
            kid_lists.len() == ents.len(),
            forall|a: int| 0 <= a < kid_lists.len() ==> places(#[trigger] kid_lists@[a]@) == kids(ents@, a),
            forall|a: int, j: int|
                0 <= a < kid_lists.len() && 0 <= j < kid_lists@[a].len() ==> #[trigger] kid_lists@[a]@[j]
                    < ents.len(),
            ks@ == kid_lists@[k as int]@,
            places(ks@) == kseq,
            rows_view(out@) == start + own + walk_all(
                ents@,
                filter@,
                kseq.take(i as int),
                (depth + 1) as nat,
                (fuel - 1) as nat,
            ),
        decreases ks.len() - i,
    {
        assert(ks@[i as int] < ents.len());
        walk_rows(ents, lower_filter, filter, kid_lists, ks[i], depth + 1, fuel - 1, out);
        proof {
            assert(kseq.take(i + 1).drop_last() =~= kseq.take(i as int));
            assert(kseq.take(i + 1).last() == ks@[i as int] as int);
        }
        i = i + 1;
    }
    assert(kseq.take(ks.len() as int) =~= kseq);
}

/// Whether a row's text holds the lowercased filter, case aside.
fn row_passes(row: &String, lower_filter: &Vec<char>, filter: Ghost<Seq<char>>) -> (r: bool)
    requires
        lower_filter@ == lowercase_of(filter@),
    ensures
        r == passes(row@, filter@),
{
    if lower_filter.len() == 0 {
        return true;
    }
    let lower = to_lowercase(row.as_str());
    let cs = chars_of(lower.as_str());
    contains_chars(&cs, lower_filter)
}

/// The contents panel's entity rows: with `tree`, the parent hierarchy,
/// each root (most children first) followed depth first by what hangs
/// under it, children in index order; else every entity in dupe order at
/// depth 0. Rows whose text does not hold `filter`, case aside, are left
/// out, though what hangs under them is not.
pub fn tree_rows(ents: &Vec<Entity>, filter: &str, tree: bool) -> (r: Vec<(u64, String, usize)>)
    requires
        ids_distinct(ents@),
    ensures
        tree ==> rows_view(r@) == tree_order(ents@, filter@),
        !tree ==> rows_view(r@) == flat_order(ents@, filter@),
{
    let lower = to_lowercase(filter);
    let lower_filter = chars_of(lower.as_str());
    let mut out: Vec<(u64, String, usize)> = Vec::new();
    if !tree {
        let mut k: usize = 0;
        while k < ents.len()
            invariant
                k <= ents.len(),
                lower_filter@ == lowercase_of(filter@),
                rows_view(out@) == flat_order(ents@.take(k as int), filter@),
            decreases ents.len() - k,
        {
            proof {
                assert(ents@.take(k + 1).drop_last() =~= ents@.take(k as int));
                assert(ents@.take(k + 1).last() == ents@[k as int]);
            }
            let ghost before = rows_view(out@);
            if row_passes(&ents[k].1, &lower_filter, Ghost(filter@)) {
                out.push((ents[k].0, ents[k].1.clone(), 0));
                assert(rows_view(out@) =~= before.push((ents@[k as int].0, ents@[k as int].1@, 0nat)));
            }
            k = k + 1;
        }
        assert(ents@.take(ents.len() as int) =~= ents@);
        return out;
    }
    let flags = parent_flags(ents);
    let mut kid_lists: Vec<Vec<usize>> = Vec::new();
    let mut counts: Vec<usize> = Vec::new();
    let mut k: usize = 0;
    while k < ents.len()
        invariant
            k <= ents.len(),
            flags.len() == ents.len(),
            forall|i: int| 0 <= i < flags.len() ==> flags@[i] == has_parent(ents@, i),
            kid_lists.len() == k,
            counts.len() == k,
            forall|i: int| 0 <= i < k ==> places(#[trigger] kid_lists@[i]@) == kids(ents@, i),
            forall|i: int| 0 <= i < k ==> #[trigger] counts@[i] == kids(ents@, i).len(),
            forall|i: int, j: int|
                0 <= i < k && 0 <= j < kid_lists@[i].len() ==> #[trigger] kid_lists@[i]@[j] < ents.len(),
        decreases ents.len() - k,
    {
        let ks = kids_of(ents, &flags, k);
        counts.push(ks.len());
        kid_lists.push(ks);
        k = k + 1;
    }
    let rs = roots_of(ents, &flags, &counts);
    let ghost rseq = roots(ents@);
    let mut i: usize = 0;
    while i < rs.len()
        invariant
            i <= rs.len(),
            lower_filter@ == lowercase_of(filter@),
            kid_lists.len() == ents.len(),
            forall|a: int| 0 <= a < kid_lists.len() ==> places(#[trigger] kid_lists@[a]@) == kids(ents@, a),
            forall|a: int, j: int|
                0 <= a < kid_lists.len() && 0 <= j < kid_lists@[a].len() ==> #[trigger] kid_lists@[a]@[j]
                    < ents.len(),
            forall|a: int| 0 <= a < rs.len() ==> rs@[a] < ents.len(),
            places(rs@) == rseq,
            rows_view(out@) == walk_all(ents@, filter@, rseq.take(i as int), 0, ents.len() as nat),
        decreases rs.len() - i,
    {
        walk_rows(ents, &lower_filter, Ghost(filter@), &kid_lists, rs[i], 0, ents.len(), &mut out);
        proof {
            assert(rseq.take(i + 1).drop_last() =~= rseq.take(i as int));
            assert(rseq.take(i + 1).last() == rs@[i as int] as int);
        }
        i = i + 1;
    }
    assert(rseq.take(rs.len() as int) =~= rseq);
    out
}

} // verus!
