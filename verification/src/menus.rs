//! The menu bar's state: the step-by-step tutorial and what File > New
//! starts from.

use vstd::prelude::*;

use crate::catalogue::{lemma_tally, occurrences, tally, tally_names};
use crate::naming::names_of;
use crate::text::chars_of;

verus! {

/// One step of the tutorial: what to do, how, and whether the open dupe
/// shows it done.
#[derive(Debug, PartialEq, Eq)]
pub struct Step {
    pub title: String,
    pub how: String,
    pub done: bool,
}

/// The step-by-step tutorial: whether it is showing, and its steps as of
/// the edit they were worked out at, so they are worked out once per
/// change and not once per frame.
#[derive(Debug)]
pub struct TutorialPanel {
    pub showing: bool,
    pub steps: Vec<Step>,
    pub built_at: Option<u64>,
}

impl Default for TutorialPanel {
    fn default() -> (r: Self)
        ensures
            !r.showing,
            r.steps@.len() == 0,
            r.built_at is None,
    {
        TutorialPanel { showing: false, steps: Vec::new(), built_at: None }
    }
}

/// How a step is marked in the window.
#[derive(PartialEq, Eq, Structural, Clone, Copy, Debug)]
pub enum Mark {
    Done,
    Next,
    Pending,
}

/// The first step not yet done, looking from `from`.
pub open spec fn undone_from(steps: Seq<Step>, from: int) -> Option<int>
    decreases steps.len() - from,
{
    if from < 0 || from >= steps.len() {
        None
    } else if !steps[from].done {
        Some(from)
    } else {
        undone_from(steps, from + 1)
    }
}

/// The step to do next: the first one not done.
pub open spec fn next_of(steps: Seq<Step>) -> Option<int> {
    undone_from(steps, 0)
}

/// How step `at` is marked: done, the next one, or neither.
pub open spec fn mark_of(steps: Seq<Step>, at: int) -> Mark {
    if steps[at].done {
        Mark::Done
    } else if next_of(steps) == Some(at) {
        Mark::Next
    } else {
        Mark::Pending
    }
}

proof fn lemma_undone_from(steps: Seq<Step>, from: int)
    requires
        0 <= from,
    ensures
        undone_from(steps, from) matches Some(i) ==> from <= i < steps.len() && !steps[i].done
            && forall|j: int| from <= j < i ==> steps[j].done,
        undone_from(steps, from) is None ==> forall|j: int| from <= j < steps.len() ==> steps[j].done,
    decreases steps.len() - from,
{
    if from < steps.len() && steps[from].done {
        lemma_undone_from(steps, from + 1);
    }
}

/// The steps were worked out at another edit than `edit_count`, or never.
pub open spec fn stale(p: TutorialPanel, edit_count: u64) -> bool {
    p.built_at != Some(edit_count)
}

impl TutorialPanel {
    /// Whether the steps were worked out before edit `edit_count`, so have
    /// to be worked out again.
    pub fn is_stale(&self, edit_count: u64) -> (r: bool)
        ensures
            r == stale(*self, edit_count),
    {
        match self.built_at {
            Some(at) => at != edit_count,
            None => true,
        }
    }

    /// Keeps `steps` as the steps of edit `edit_count`.
    pub fn rebuild(&mut self, steps: Vec<Step>, edit_count: u64)
        ensures
            final(self).steps@ == steps@,
            final(self).built_at == Some(edit_count),
            final(self).showing == old(self).showing,
    {
        self.steps = steps;
        self.built_at = Some(edit_count);
    }

    /// The step to do next: the first one not done.
    pub fn next_step(&self) -> (r: Option<usize>)
        ensures
            r matches Some(i) ==> next_of(self.steps@) == Some(i as int),
            r is None ==> next_of(self.steps@) is None,
    {
        let mut i: usize = 0;
        while i < self.steps.len()
            invariant
                i <= self.steps.len(),
                next_of(self.steps@) == undone_from(self.steps@, i as int),
            decreases self.steps.len() - i,
        {
            if !self.steps[i].done {
                return Some(i);
            }
            i = i + 1;
        }
        None
    }

    /// Every step done: the tank is finished.
    pub fn finished(&self) -> (r: bool)
        ensures
            r == (next_of(self.steps@) is None),
            r == forall|j: int| 0 <= j < self.steps@.len() ==> (#[trigger] self.steps@[j]).done,
    {
        proof {
            lemma_undone_from(self.steps@, 0);
        }
        self.next_step().is_none()
    }

    /// How each step is marked, in order.
    pub fn marks(&self) -> (r: Vec<Mark>)
        ensures
            r.len() == self.steps.len(),
            forall|j: int| 0 <= j < r.len() ==> #[trigger] r@[j] == mark_of(self.steps@, j),
    {
        let next = self.next_step();
        let mut r: Vec<Mark> = Vec::new();
        let mut i: usize = 0;
        while i < self.steps.len()
            invariant
                i <= self.steps.len(),
                r.len() == i,
                next matches Some(n) ==> next_of(self.steps@) == Some(n as int),
                next is None ==> next_of(self.steps@) is None,
                forall|j: int| 0 <= j < i ==> #[trigger] r@[j] == mark_of(self.steps@, j),
            decreases self.steps.len() - i,
        {
            let m = if self.steps[i].done {
                Mark::Done
            } else if next == Some(i) {
                Mark::Next
            } else {
                Mark::Pending
            };
            r.push(m);
            i = i + 1;
        }
        r
    }
}

/// At most one step is marked next, it is the first not done, and every
/// step before it is done.
pub proof fn lemma_one_next(steps: Seq<Step>)
    ensures
        forall|a: int, b: int|
            0 <= a < steps.len() && 0 <= b < steps.len() && mark_of(steps, a) == Mark::Next
                && mark_of(steps, b) == Mark::Next ==> a == b,
        forall|a: int, b: int|
            0 <= b < a < steps.len() && mark_of(steps, a) == Mark::Next ==> mark_of(steps, b)
                == Mark::Done,
        (exists|j: int| 0 <= j < steps.len() && !steps[j].done) ==> exists|a: int|
            0 <= a < steps.len() && mark_of(steps, a) == Mark::Next,
{
    lemma_undone_from(steps, 0);
    if exists|j: int| 0 <= j < steps.len() && !steps[j].done {
        let i = next_of(steps).unwrap();
        assert(mark_of(steps, i) == Mark::Next);
    }
}

/// Steps worked out at an edit are current until the next edit, and only
/// until then.
pub proof fn lemma_rebuilt_is_current(p: TutorialPanel, edit_count: u64, later: u64)
    requires
        p.built_at == Some(edit_count),
    ensures
        !stale(p, edit_count),
        later != edit_count ==> stale(p, later),
{
}

/// What a new dupe starts with.
#[derive(PartialEq, Eq, Structural, Clone, Copy, Debug)]
pub enum NewDupe {
    Empty,
    Baseplate,
}

/// What the editor says once a new dupe is made.
pub fn new_dupe_message(start: NewDupe) -> (r: String)
    ensures
        start == NewDupe::Empty ==> r@ == "new empty dupe. Add parts, then Save."@,
        start == NewDupe::Baseplate ==> r@ == "new dupe with a baseplate. Add parts to it, then Save."@,
{
    match start {
        NewDupe::Empty => String::from_str("new empty dupe. Add parts, then Save."),
        NewDupe::Baseplate => String::from_str("new dupe with a baseplate. Add parts to it, then Save."),
    }
}

/// `a` comes before `b` in the order of their characters, as `str`
/// compares them.
pub open spec fn text_less(a: Seq<char>, b: Seq<char>) -> bool
    decreases a.len(),
{
    if a.len() == 0 {
        b.len() > 0
    } else if b.len() == 0 {
        false
    } else if a[0] != b[0] {
        a[0] < b[0]
    } else {
        text_less(a.drop_first(), b.drop_first())
    }
}

/// Whether `a` comes before `b`.
fn text_before(a: &Vec<char>, b: &Vec<char>) -> (r: bool)
    ensures
        r == text_less(a@, b@),
{
    let mut i: usize = 0;
    assert(a@.skip(0) =~= a@);
    assert(b@.skip(0) =~= b@);
    while i < a.len() && i < b.len() && a[i] == b[i]
        invariant
            i <= a.len(),
            i <= b.len(),
            text_less(a@, b@) == text_less(a@.skip(i as int), b@.skip(i as int)),
        decreases a.len() - i,
    {
        assert(a@.skip(i as int).drop_first() =~= a@.skip(i + 1));
        assert(b@.skip(i as int).drop_first() =~= b@.skip(i + 1));
        i = i + 1;
    }
    if i == a.len() {
        i < b.len()
    } else if i == b.len() {
        false
    } else {
        a[i] < b[i]
    }
}

/// Where the count `x` goes among `s` kept in name order.
pub open spec fn name_slot(s: Seq<(Seq<char>, nat)>, x: (Seq<char>, nat), from: int) -> int
    decreases s.len() - from,
{
    if from < 0 || from >= s.len() {
        s.len() as int
    } else if text_less(x.0, s[from].0) {
        from
    } else {
        name_slot(s, x, from + 1)
    }
}

/// `counts` put in name order, one at a time.
pub open spec fn by_name(counts: Seq<(Seq<char>, nat)>) -> Seq<(Seq<char>, nat)>
    decreases counts.len(),
{
    if counts.len() == 0 {
        Seq::empty()
    } else {
        let s = by_name(counts.drop_last());
        s.insert(name_slot(s, counts.last(), 0), counts.last())
    }
}

/// No text comes before itself.
pub proof fn lemma_text_less_irreflexive(a: Seq<char>)
    ensures
        !text_less(a, a),
    decreases a.len(),
{
    if a.len() > 0 {
        lemma_text_less_irreflexive(a.drop_first());
    }
}

/// Of two different texts, exactly one comes first.
pub proof fn lemma_text_less_total(a: Seq<char>, b: Seq<char>)
    ensures
        a != b ==> text_less(a, b) || text_less(b, a),
        text_less(a, b) ==> !text_less(b, a),
    decreases a.len(),
{
    if a.len() == 0 {
        if b.len() == 0 {
            assert(a =~= b);
        }
    } else if b.len() > 0 && a[0] == b[0] {
        lemma_text_less_total(a.drop_first(), b.drop_first());
        if a.drop_first() == b.drop_first() {
            assert forall|i: int| 0 <= i < a.len() implies a[i] == b[i] by {
                if i > 0 {
                    assert(a[i] == a.drop_first()[i - 1]);
                    assert(b[i] == b.drop_first()[i - 1]);
                }
            }
            assert(a =~= b);
        }
    }
}

/// The order of texts is transitive.
pub proof fn lemma_text_less_transitive(a: Seq<char>, b: Seq<char>, c: Seq<char>)
    ensures
        text_less(a, b) && text_less(b, c) ==> text_less(a, c),
    decreases a.len(),
{
    if a.len() > 0 && b.len() > 0 && c.len() > 0 && a[0] == b[0] && b[0] == c[0] {
        lemma_text_less_transitive(a.drop_first(), b.drop_first(), c.drop_first());
    }
}

proof fn lemma_name_slot_facts(s: Seq<(Seq<char>, nat)>, x: (Seq<char>, nat), from: int)
    requires
        0 <= from <= s.len(),
        forall|m: int| 0 <= m < from ==> !text_less(x.0, (#[trigger] s[m]).0),
    ensures
        from <= name_slot(s, x, from) <= s.len(),
        forall|m: int| 0 <= m < name_slot(s, x, from) ==> !text_less(x.0, (#[trigger] s[m]).0),
        name_slot(s, x, from) < s.len() ==> text_less(x.0, s[name_slot(s, x, from)].0),
    decreases s.len() - from,
{
    if from < s.len() && !text_less(x.0, s[from].0) {
        lemma_name_slot_facts(s, x, from + 1);
    }
}

/// Putting counts in name order keeps each of them, adds none, and, when no
/// name repeats, leaves the names strictly increasing.
pub proof fn lemma_by_name(counts: Seq<(Seq<char>, nat)>)
    ensures
        by_name(counts).len() == counts.len(),
        forall|m: int| 0 <= m < by_name(counts).len() ==> counts.contains(#[trigger] by_name(counts)[m]),
        forall|i: int| 0 <= i < counts.len() ==> by_name(counts).contains(#[trigger] counts[i]),
        (forall|a: int, b: int| 0 <= a < b < counts.len() ==> counts[a].0 != counts[b].0) ==> forall|
            a: int,
            b: int,
        | 0 <= a < b < by_name(counts).len() ==> text_less(
            (#[trigger] by_name(counts)[a]).0,
            (#[trigger] by_name(counts)[b]).0,
        ),
    decreases counts.len(),
{
    if counts.len() > 0 {
        let rest = counts.drop_last();
        lemma_by_name(rest);
        let s = by_name(rest);
        let x = counts.last();
        lemma_name_slot_facts(s, x, 0);
        let r = name_slot(s, x, 0);
        let t = s.insert(r, x);
        assert(t == by_name(counts));
        assert forall|m: int| 0 <= m < t.len() implies counts.contains(#[trigger] t[m]) by {
            if m == r {
                assert(counts[counts.len() - 1] == x);
            } else {
                let y = if m < r { s[m] } else { s[m - 1] };
                assert(t[m] == y);
                assert(rest.contains(y));
                let i = choose|i: int| 0 <= i < rest.len() && rest[i] == y;
                assert(counts[i] == rest[i]);
            }
        }
        assert forall|i: int| 0 <= i < counts.len() implies t.contains(#[trigger] counts[i]) by {
            if i == counts.len() - 1 {
                assert(t[r] == counts[i]);
            } else {
                assert(rest[i] == counts[i]);
                assert(s.contains(rest[i]));
                let m = choose|m: int| 0 <= m < s.len() && s[m] == rest[i];
                if m < r {
                    assert(t[m] == s[m]);
                } else {
                    assert(t[m + 1] == s[m]);
                }
            }
        }
        if forall|a: int, b: int| 0 <= a < b < counts.len() ==> counts[a].0 != counts[b].0 {
            assert forall|m: int| 0 <= m < s.len() implies (#[trigger] s[m]).0 != x.0 by {
                assert(rest.contains(s[m]));
                let i = choose|i: int| 0 <= i < rest.len() && rest[i] == s[m];
                assert(counts[i] == rest[i]);
            }
            assert forall|a: int, b: int| 0 <= a < b < t.len() implies text_less(
                (#[trigger] t[a]).0,
                (#[trigger] t[b]).0,
            ) by {
                if b < r {
                    assert(t[a] == s[a] && t[b] == s[b]);
                } else if b == r {
                    assert(t[a] == s[a] && t[b] == x);
                    lemma_text_less_total(s[a].0, x.0);
                } else if a < r {
                    assert(t[a] == s[a] && t[b] == s[b - 1]);
                } else if a == r {
                    assert(t[a] == x && t[b] == s[b - 1]);
                    if r < b - 1 {
                        lemma_text_less_transitive(x.0, s[r].0, s[b - 1].0);
                    }
                } else {
                    assert(t[a] == s[a - 1] && t[b] == s[b - 1]);
                }
            }
        }
    }
}

/// The Show menu lists each role once, in strictly increasing name order,
/// against the number of parts that have it; and every role a part has is
/// listed.
pub proof fn lemma_show_menu(roles: Seq<Seq<char>>)
    ensures
        forall|a: int, b: int|
            0 <= a < b < by_name(tally(roles)).len() ==> text_less(
                (#[trigger] by_name(tally(roles))[a]).0,
                (#[trigger] by_name(tally(roles))[b]).0,
            ),
        forall|k: int|
            0 <= k < by_name(tally(roles)).len() ==> (#[trigger] by_name(tally(roles))[k]).1 == occurrences(
                roles,
                by_name(tally(roles))[k].0,
            ),
        forall|j: int|
            0 <= j < roles.len() ==> exists|k: int|
                0 <= k < by_name(tally(roles)).len() && by_name(tally(roles))[k].0 == #[trigger] roles[j],
{
    let t = tally(roles);
    lemma_tally(roles);
    lemma_by_name(t);
    let r = by_name(t);
    assert forall|k: int| 0 <= k < r.len() implies (#[trigger] r[k]).1 == occurrences(roles, r[k].0) by {
        assert(t.contains(r[k]));
        let i = choose|i: int| 0 <= i < t.len() && t[i] == r[k];
        assert(t[i].1 == occurrences(roles, t[i].0));
    }
    assert forall|j: int| 0 <= j < roles.len() implies exists|k: int|
        0 <= k < r.len() && r[k].0 == #[trigger] roles[j] by {
        let i = choose|i: int| 0 <= i < t.len() && t[i].0 == roles[j];
        assert(r.contains(t[i]));
        let k = choose|k: int| 0 <= k < r.len() && r[k] == t[i];
        assert(r[k].0 == roles[j]);
    }
}

/// The Show menu's lines: each role the open dupe's parts have, with how
/// many have it, in name order.
pub fn role_counts(roles: &Vec<String>) -> (r: Vec<(String, usize)>)
    ensures
        r.len() == by_name(tally(names_of(roles@))).len(),
        forall|k: int|
            0 <= k < r.len() ==> (#[trigger] r@[k]).0@ == by_name(tally(names_of(roles@)))[k].0
                && r@[k].1 == by_name(tally(names_of(roles@)))[k].1,
{
    let counted = tally_names(roles);
    let ghost t = tally(names_of(roles@));
    let mut r: Vec<(String, usize)> = Vec::new();
    let mut keys: Vec<Vec<char>> = Vec::new();
    let mut i: usize = 0;
    while i < counted.len()
        invariant
            i <= counted.len(),
            counted.len() == t.len(),
            forall|k: int| 0 <= k < counted.len() ==> (#[trigger] counted@[k]).0@ == t[k].0 && counted@[k].1 == t[k].1,
            r.len() == by_name(t.take(i as int)).len(),
            keys.len() == r.len(),
            forall|k: int|
                0 <= k < r.len() ==> (#[trigger] r@[k]).0@ == by_name(t.take(i as int))[k].0
                    && r@[k].1 == by_name(t.take(i as int))[k].1 && keys@[k]@ == r@[k].0@,
        decreases counted.len() - i,
    {
        let name = chars_of(counted[i].0.as_str());
        let ghost s = by_name(t.take(i as int));
        let ghost x = t[i as int];
        proof {
            assert(t.take(i + 1).drop_last() =~= t.take(i as int));
            assert(t.take(i + 1).last() == x);
        }
        assert forall|k: int| 0 <= k < r.len() implies (#[trigger] keys@[k])@ == s[k].0 by {
            assert(r@[k].0@ == s[k].0);
        }
        let mut p: usize = 0;
        while p < r.len() && !text_before(&name, &keys[p])
            invariant
                p <= r.len(),
                keys.len() == r.len(),
                name@ == x.0,
                r.len() == s.len(),
                forall|k: int| 0 <= k < r.len() ==> (#[trigger] keys@[k])@ == s[k].0,
                name_slot(s, x, 0) == name_slot(s, x, p as int),
            decreases r.len() - p,
        {
            p = p + 1;
        }
        let ghost old_r = r@;
        let ghost old_keys = keys@;
        r.insert(p, (counted[i].0.clone(), counted[i].1));
        keys.insert(p, name);
        proof {
            let s2 = s.insert(p as int, x);
            assert forall|k: int| 0 <= k < r.len() implies (#[trigger] r@[k]).0@ == s2[k].0
                && r@[k].1 == s2[k].1 && keys@[k]@ == r@[k].0@ by {
                if k < p {
                    assert(r@[k] == old_r[k] && keys@[k] == old_keys[k]);
                } else if k > p {
                    assert(r@[k] == old_r[k - 1] && keys@[k] == old_keys[k - 1]);
                }
            }
        }
        i = i + 1;
    }
    assert(t.take(counted.len() as int) =~= t);
    r
}

} // verus!
