//! The parts catalogue as the Add window and the Add menu see it: groups
//! of categories, and the search over every part.

use vstd::prelude::*;

use crate::naming::names_of;
use crate::text::{skip_chars, contains_chars, holds, lowercase_of, push_char, split_whitespace, to_lowercase, words, chars_of, find_chars, find_from, lemma_find_from, occurs_at, string_of, take_chars};

verus! {

/// One part the editor can add: the entity class it spawns, the value
/// that picks it among that class, and how it is shown.
#[derive(Debug, PartialEq, Eq)]
pub struct Item {
    pub entity: String,
    pub value: String,
    pub name: String,
    pub category: String,
    pub note: String,
}

/// What separates a category's levels: "Engines / Piston I6".
pub open spec fn group_sep() -> Seq<char> {
    seq![' ', '/', ' ']
}

/// A category's top-level group: what stands before its first " / ", or
/// the whole category when it has none.
pub open spec fn group(category: Seq<char>) -> Seq<char> {
    match find_from(category, group_sep(), 0) {
        Some(i) => category.take(i),
        None => category,
    }
}

/// The top-level group of `category` ("Engines / Piston I6" is Engines).
pub fn group_of(category: &str) -> (r: String)
    ensures
        r@ == group(category@),
{
    let cs = chars_of(category);
    let sep: Vec<char> = vec![' ', '/', ' '];
    assert(sep@ =~= group_sep());
    match find_chars(&cs, &sep, 0) {
        Some(i) => {
            proof {
                lemma_find_from(cs@, sep@, 0);
            }
            string_of(&take_chars(&cs, i))
        },
        None => string_of(&cs),
    }
}

/// Taking the group of a group changes nothing.
pub proof fn lemma_group_idempotent(category: Seq<char>)
    ensures
        group(group(category)) == group(category),
{
    lemma_find_from(category, group_sep(), 0);
    let g = group(category);
    lemma_find_from(g, group_sep(), 0);
    if let Some(i) = find_from(category, group_sep(), 0) {
        if let Some(j) = find_from(g, group_sep(), 0) {
            assert(g.subrange(j, j + 3) =~= category.subrange(j, j + 3));
            assert(occurs_at(category, group_sep(), j));
            assert(false);
        }
    }
}

/// The first place in `tally` whose name is `name`, looking from `from`.
pub open spec fn slot_from(tally: Seq<(Seq<char>, nat)>, name: Seq<char>, from: int) -> Option<int>
    decreases tally.len() - from,
{
    if from < 0 || from >= tally.len() {
        None
    } else if tally[from].0 == name {
        Some(from)
    } else {
        slot_from(tally, name, from + 1)
    }
}

/// Each distinct name of `names` with how many times it occurs, in the
/// order of first appearance.
pub open spec fn tally(names: Seq<Seq<char>>) -> Seq<(Seq<char>, nat)>
    decreases names.len(),
{
    if names.len() == 0 {
        Seq::empty()
    } else {
        let t = tally(names.drop_last());
        let name = names.last();
        match slot_from(t, name, 0) {
            Some(k) => t.update(k, (name, t[k].1 + 1)),
            None => t.push((name, 1)),
        }
    }
}

/// The groups of the items' categories, item by item.
pub open spec fn groups_of(items: Seq<Item>) -> Seq<Seq<char>> {
    items.map_values(|item: Item| group(item.category@))
}

/// How many times `name` occurs in `names`.
pub open spec fn occurrences(names: Seq<Seq<char>>, name: Seq<char>) -> nat
    decreases names.len(),
{
    if names.len() == 0 {
        0
    } else {
        occurrences(names.drop_last(), name) + if names.last() == name { 1nat } else { 0nat }
    }
}

proof fn lemma_occurs_somewhere(names: Seq<Seq<char>>, name: Seq<char>)
    requires
        occurrences(names, name) > 0,
    ensures
        exists|j: int| 0 <= j < names.len() && names[j] == name,
    decreases names.len(),
{
    if names.last() != name {
        lemma_occurs_somewhere(names.drop_last(), name);
        let j = choose|j: int| 0 <= j < names.drop_last().len() && names.drop_last()[j] == name;
        assert(names[j] == name);
    } else {
        assert(names[names.len() - 1] == name);
    }
}

proof fn lemma_slot_from(t: Seq<(Seq<char>, nat)>, name: Seq<char>, from: int)
    requires
        0 <= from,
    ensures
        slot_from(t, name, from) matches Some(k) ==> from <= k < t.len() && t[k].0 == name,
        slot_from(t, name, from) is None ==> forall|k: int| from <= k < t.len() ==> t[k].0 != name,
    decreases t.len() - from,
{
    if from < t.len() && t[from].0 != name {
        lemma_slot_from(t, name, from + 1);
    }
}

/// The tally holds each name once, every name of the list, and against each
/// the number of times it occurs.
pub proof fn lemma_tally(names: Seq<Seq<char>>)
    ensures
        forall|a: int, b: int|
            0 <= a < b < tally(names).len() ==> tally(names)[a].0 != tally(names)[b].0,
        forall|k: int|
            0 <= k < tally(names).len() ==> #[trigger] tally(names)[k].1 == occurrences(
                names,
                tally(names)[k].0,
            ),
        forall|j: int|
            0 <= j < names.len() ==> exists|k: int|
                0 <= k < tally(names).len() && tally(names)[k].0 == #[trigger] names[j],
        tally(names).len() <= names.len(),
    decreases names.len(),
{
    if names.len() > 0 {
        let rest = names.drop_last();
        lemma_tally(rest);
        let t = tally(rest);
        let name = names.last();
        lemma_slot_from(t, name, 0);
        let t2 = tally(names);
        assert forall|k: int| 0 <= k < t2.len() implies #[trigger] t2[k].1 == occurrences(
            names,
            t2[k].0,
        ) by {
            match slot_from(t, name, 0) {
                Some(s) => {
                    if k != s {
                        assert(t2[k] == t[k]);
                    }
                },
                None => {
                    if k < t.len() {
                        assert(t2[k] == t[k]);
                    } else {
                        if occurrences(rest, name) > 0 {
                            lemma_occurs_somewhere(rest, name);
                            let j = choose|j: int| 0 <= j < rest.len() && rest[j] == name;
                            assert(exists|k: int| 0 <= k < t.len() && t[k].0 == #[trigger] rest[j]);
                        }
                    }
                },
            }
        }
        assert forall|j: int| 0 <= j < names.len() implies exists|k: int|
            0 <= k < t2.len() && t2[k].0 == #[trigger] names[j] by {
            if j < rest.len() {
                assert(rest[j] == names[j]);
                let k = choose|k: int| 0 <= k < t.len() && t[k].0 == rest[j];
                assert(t2[k].0 == names[j]);
            } else {
                match slot_from(t, name, 0) {
                    Some(k) => assert(t2[k].0 == names[j]),
                    None => assert(t2[t.len() as int].0 == names[j]),
                }
            }
        }
    }
}

/// Each name the tally lists occurs in the list.
pub proof fn lemma_tally_names_occur(names: Seq<Seq<char>>)
    ensures
        forall|k: int|
            0 <= k < tally(names).len() ==> exists|i: int|
                #![trigger names[i]]
                0 <= i < names.len() && names[i] == (#[trigger] tally(names)[k]).0,
    decreases names.len(),
{
    if names.len() > 0 {
        let rest = names.drop_last();
        lemma_tally_names_occur(rest);
        let t = tally(rest);
        let name = names.last();
        lemma_slot_from(t, name, 0);
        let t2 = tally(names);
        assert forall|k: int| 0 <= k < t2.len() implies exists|i: int|
            #![trigger names[i]]
            0 <= i < names.len() && names[i] == (#[trigger] t2[k]).0 by {
            if k < t.len() && t2[k].0 == t[k].0 {
                let i = choose|i: int| #![trigger rest[i]] 0 <= i < rest.len() && rest[i] == t[k].0;
                assert(names[i] == rest[i]);
            } else {
                assert(t2[k].0 == name);
                assert(names[names.len() - 1] == name);
            }
        }
    }
}

/// The tally lists names in the order they first appear: of two listed
/// names, the earlier occurs in the list before any occurrence of the
/// later.
#[verifier::rlimit(40)]
pub proof fn lemma_tally_first_seen(names: Seq<Seq<char>>)
    ensures
        forall|a: int, b: int|
            0 <= a < b < tally(names).len() ==> exists|i: int|
                #![trigger names[i]]
                0 <= i < names.len() && names[i] == (#[trigger] tally(names)[a]).0 && forall|j: int|
                    0 <= j <= i ==> names[j] != (#[trigger] tally(names)[b]).0,
    decreases names.len(),
{
    if names.len() > 0 {
        let rest = names.drop_last();
        lemma_tally_first_seen(rest);
        lemma_tally_names_occur(rest);
        let t = tally(rest);
        let name = names.last();
        lemma_slot_from(t, name, 0);
        let t2 = tally(names);
        assert forall|a: int, b: int| 0 <= a < b < t2.len() implies exists|i: int|
            #![trigger names[i]]
            0 <= i < names.len() && names[i] == (#[trigger] t2[a]).0 && forall|j: int|
                0 <= j <= i ==> names[j] != (#[trigger] t2[b]).0 by {
            if b < t.len() {
                assert(t2[a].0 == t[a].0 && t2[b].0 == t[b].0);
                let i = choose|i: int|
                    #![trigger rest[i]]
                    0 <= i < rest.len() && rest[i] == t[a].0 && forall|j: int|
                        0 <= j <= i ==> rest[j] != t[b].0;
                assert(names[i] == rest[i]);
                assert forall|j: int| 0 <= j <= i implies names[j] != t2[b].0 by {
                    assert(names[j] == rest[j]);
                }
            } else {
                assert(slot_from(t, name, 0) is None);
                assert(t2[a] == t[a] && t2[b].0 == name);
                let i = choose|i: int| #![trigger rest[i]] 0 <= i < rest.len() && rest[i] == t[a].0;
                assert(names[i] == rest[i]);
                assert forall|j: int| 0 <= j <= i implies names[j] != t2[b].0 by {
                    assert(names[j] == rest[j]);
                    if rest[j] == name {
                        lemma_tally(rest);
                        let k = choose|k: int| 0 <= k < t.len() && t[k].0 == #[trigger] rest[j];
                        assert(t[k].0 == name);
                    }
                }
            }
        }
    }
}

/// The counts of a tally added up.
pub open spec fn total(t: Seq<(Seq<char>, nat)>) -> nat
    decreases t.len(),
{
    if t.len() == 0 {
        0
    } else {
        total(t.drop_last()) + t.last().1
    }
}

proof fn lemma_total_bump(t: Seq<(Seq<char>, nat)>, k: int, name: Seq<char>)
    requires
        0 <= k < t.len(),
    ensures
        total(t.update(k, (name, t[k].1 + 1))) == total(t) + 1,
    decreases t.len(),
{
    let u = t.update(k, (name, t[k].1 + 1));
    if k < t.len() - 1 {
        assert(u.drop_last() =~= t.drop_last().update(k, (name, t[k].1 + 1)));
        lemma_total_bump(t.drop_last(), k, name);
    } else {
        assert(u.drop_last() =~= t.drop_last());
    }
}

/// Every name is counted once: the counts add up to the length of the list.
pub proof fn lemma_tally_total(names: Seq<Seq<char>>)
    ensures
        total(tally(names)) == names.len(),
    decreases names.len(),
{
    if names.len() > 0 {
        let rest = names.drop_last();
        lemma_tally_total(rest);
        let t = tally(rest);
        match slot_from(t, names.last(), 0) {
            Some(k) => {
                lemma_slot_from(t, names.last(), 0);
                lemma_total_bump(t, k, names.last());
            },
            None => {
                assert(t.push((names.last(), 1nat)).drop_last() =~= t);
            },
        }
    }
}

/// Where `name` stands among the names counted so far.
fn find_slot(groups: &Vec<(String, usize)>, name: &String, t: Ghost<Seq<(Seq<char>, nat)>>) -> (r: Option<usize>)
    requires
        groups.len() == t@.len(),
        forall|j: int| 0 <= j < groups.len() ==> (#[trigger] groups@[j]).0@ == t@[j].0,
    ensures
        r matches Some(k) ==> slot_from(t@, name@, 0) == Some(k as int) && k < groups.len(),
        r is None ==> slot_from(t@, name@, 0) is None,
{
    let mut k: usize = 0;
    while k < groups.len()
        invariant
            k <= groups.len(),
            groups.len() == t@.len(),
            forall|j: int| 0 <= j < groups.len() ==> (#[trigger] groups@[j]).0@ == t@[j].0,
            slot_from(t@, name@, 0) == slot_from(t@, name@, k as int),
        decreases groups.len() - k,
    {
        if groups[k].0 == *name {
            return Some(k);
        }
        k = k + 1;
    }
    None
}

/// Each top-level group of the catalogue with how many items are in it, in
/// the order the catalogue first reaches it.
pub fn catalogue_groups(items: &Vec<Item>) -> (r: Vec<(String, usize)>)
    ensures
        r.len() == tally(groups_of(items@)).len(),
        forall|k: int|
            0 <= k < r.len() ==> (#[trigger] r@[k]).0@ == tally(groups_of(items@))[k].0
                && r@[k].1 == tally(groups_of(items@))[k].1,
{
    let mut groups: Vec<(String, usize)> = Vec::new();
    let mut i: usize = 0;
    while i < items.len()
        invariant
            i <= items.len(),
            groups.len() == tally(groups_of(items@).take(i as int)).len(),
            forall|k: int|
                0 <= k < groups.len() ==> (#[trigger] groups@[k]).0@ == tally(
                    groups_of(items@).take(i as int),
                )[k].0 && groups@[k].1 == tally(groups_of(items@).take(i as int))[k].1,
            forall|k: int| 0 <= k < groups.len() ==> (#[trigger] groups@[k]).1 <= i,
        decreases items.len() - i,
    {
        let g = group_of(items[i].category.as_str());
        let ghost names = groups_of(items@).take(i + 1);
        let ghost t = tally(groups_of(items@).take(i as int));
        proof {
            assert(names.drop_last() =~= groups_of(items@).take(i as int));
            assert(names.last() == g@);
            lemma_slot_from(t, g@, 0);
        }
        match find_slot(&groups, &g, Ghost(t)) {
            Some(k) => {
                let n = groups[k].1;
                let name = groups[k].0.clone();
                groups.set(k, (name, n + 1));
            },
            None => {
                groups.push((g, 1));
            },
        }
        proof {
            let t2 = tally(names);
            assert forall|j: int| 0 <= j < groups.len() implies (#[trigger] groups@[j]).0@ == t2[j].0
                && groups@[j].1 == t2[j].1 by {}
        }
        i = i + 1;
    }
    assert(groups_of(items@).take(items.len() as int) =~= groups_of(items@));
    groups
}


/// What a search reads of an item: its name, category, value and note, a
/// space between each.
pub open spec fn said_of(item: Item) -> Seq<char> {
    item.name@ + seq![' '] + item.category@ + seq![' '] + item.value@ + seq![' '] + item.note@
}

/// Every word of the lowercased query stands in the item's lowercased text.
pub open spec fn item_matches(item: Item, query: Seq<char>) -> bool {
    let ws = words(lowercase_of(query));
    forall|k: int| 0 <= k < ws.len() ==> holds(lowercase_of(said_of(item)), #[trigger] ws[k])
}

/// The items that match `query`, in catalogue order.
pub open spec fn matching(items: Seq<Item>, query: Seq<char>) -> Seq<Item>
    decreases items.len(),
{
    if items.len() == 0 {
        Seq::empty()
    } else if item_matches(items.last(), query) {
        matching(items.drop_last(), query).push(items.last())
    } else {
        matching(items.drop_last(), query)
    }
}

/// A search reads a part's name, category, value and note, a space between
/// each, case aside: what it lists are parts of the catalogue whose text so
/// read, lowercased, holds every word of the lowercased query, and every
/// part whose text does is listed.
pub proof fn lemma_search_reads_name_category_value_note(items: Seq<Item>, query: Seq<char>)
    ensures
        forall|k: int|
            0 <= k < matching(items, query).len() ==> items.contains(#[trigger] matching(items, query)[k])
                && forall|w: int|
                0 <= w < words(lowercase_of(query)).len() ==> holds(
                    lowercase_of(
                        matching(items, query)[k].name@ + seq![' '] + matching(items, query)[k].category@
                            + seq![' '] + matching(items, query)[k].value@ + seq![' ']
                            + matching(items, query)[k].note@,
                    ),
                    #[trigger] words(lowercase_of(query))[w],
                ),
        forall|j: int|
            0 <= j < items.len() && (forall|w: int|
                0 <= w < words(lowercase_of(query)).len() ==> holds(
                    lowercase_of(
                        items[j].name@ + seq![' '] + items[j].category@ + seq![' '] + items[j].value@
                            + seq![' '] + items[j].note@,
                    ),
                    #[trigger] words(lowercase_of(query))[w],
                )) ==> matching(items, query).contains(#[trigger] items[j]),
    decreases items.len(),
{
    if items.len() > 0 {
        let rest = items.drop_last();
        lemma_search_reads_name_category_value_note(rest, query);
        let m = matching(items, query);
        let g = matching(rest, query);
        assert forall|k: int| 0 <= k < m.len() implies items.contains(#[trigger] m[k]) by {
            if k < g.len() {
                assert(m[k] == g[k]);
                assert(rest.contains(g[k]));
                let i = choose|i: int| 0 <= i < rest.len() && rest[i] == g[k];
                assert(items[i] == rest[i]);
            } else {
                assert(items[items.len() - 1] == m[k]);
            }
        }
        assert forall|k: int| 0 <= k < m.len() implies item_matches(#[trigger] m[k], query) by {
            if k < g.len() {
                assert(m[k] == g[k]);
            }
        }
        assert forall|j: int|
            0 <= j < items.len() && item_matches(items[j], query) implies m.contains(#[trigger] items[j]) by {
            if j < rest.len() {
                assert(items[j] == rest[j]);
                let x = rest[j];
                assert(g.contains(x));
                let i = choose|i: int| 0 <= i < g.len() && g[i] == x;
                assert(m[i] == g[i]);
            } else {
                assert(m[m.len() - 1] == items[j]);
            }
        }
    }
}

/// The matches among the first items are the first of all the matches.
pub proof fn lemma_matching_prefix(items: Seq<Item>, query: Seq<char>, j: int)
    requires
        0 <= j <= items.len(),
    ensures
        matching(items.take(j), query).len() <= matching(items, query).len(),
        matching(items.take(j), query) == matching(items, query).take(
            matching(items.take(j), query).len() as int,
        ),
    decreases items.len(),
{
    if j == items.len() {
        assert(items.take(j) =~= items);
        assert(matching(items, query).take(matching(items, query).len() as int) =~= matching(
            items,
            query,
        ));
    } else {
        let rest = items.drop_last();
        assert(items.take(j) =~= rest.take(j));
        lemma_matching_prefix(rest, query, j);
        let m = matching(rest, query);
        let n = matching(rest.take(j), query).len() as int;
        if item_matches(items.last(), query) {
            assert(m.push(items.last()).take(n) =~= m.take(n));
        }
    }
}

/// The first `limit` matches: what a search with that limit lists.
pub open spec fn first_matches(items: Seq<Item>, query: Seq<char>, limit: int) -> Seq<Item> {
    let m = matching(items, query);
    if limit < m.len() {
        m.take(limit)
    } else {
        m
    }
}

/// A search with a smaller limit lists a prefix of what a larger one lists.
pub proof fn lemma_search_limits_nest(items: Seq<Item>, query: Seq<char>, a: int, b: int)
    requires
        0 <= a <= b,
    ensures
        first_matches(items, query, a).len() <= first_matches(items, query, b).len(),
        first_matches(items, query, a) == first_matches(items, query, b).take(
            first_matches(items, query, a).len() as int,
        ),
{
    let m = matching(items, query);
    assert(first_matches(items, query, a) =~= first_matches(items, query, b).take(
        first_matches(items, query, a).len() as int,
    ));
}

/// A search whose lowercased words are all among another's lists a
/// superset of it: searching with more words only narrows, and the narrower
/// search is the wider one searched again.
pub proof fn lemma_search_narrows(items: Seq<Item>, wide: Seq<char>, narrow: Seq<char>)
    requires
        forall|k: int|
            0 <= k < words(lowercase_of(wide)).len() ==> words(lowercase_of(narrow)).contains(
                #[trigger] words(lowercase_of(wide))[k],
            ),
    ensures
        matching(items, narrow) == matching(matching(items, wide), narrow),
    decreases items.len(),
{
    if items.len() > 0 {
        let rest = items.drop_last();
        lemma_search_narrows(rest, wide, narrow);
        let it = items.last();
        if item_matches(it, narrow) {
            let wn = words(lowercase_of(narrow));
            let ww = words(lowercase_of(wide));
            assert forall|k: int| 0 <= k < ww.len() implies holds(
                lowercase_of(said_of(it)),
                #[trigger] ww[k],
            ) by {
                assert(wn.contains(ww[k]));
                let j = choose|j: int| 0 <= j < wn.len() && wn[j] == ww[k];
                assert(holds(lowercase_of(said_of(it)), wn[j]));
            }
            let mw = matching(items, wide);
            assert(mw == matching(rest, wide).push(it));
            assert(mw.drop_last() =~= matching(rest, wide));
        } else if item_matches(it, wide) {
            let mw = matching(items, wide);
            assert(mw.drop_last() =~= matching(rest, wide));
        }
    }
}

/// A query with no words matches every item, so a blank search lists the
/// catalogue from its start.
pub proof fn lemma_blank_search(items: Seq<Item>, query: Seq<char>)
    requires
        words(lowercase_of(query)).len() == 0,
    ensures
        matching(items, query) == items,
    decreases items.len(),
{
    if items.len() > 0 {
        lemma_blank_search(items.drop_last(), query);
        assert(items.drop_last().push(items.last()) =~= items);
    }
}

/// The whole text a search reads of `item`, lowercased.
fn said_lowercase(item: &Item) -> (r: Vec<char>)
    ensures
        r@ == lowercase_of(said_of(*item)),
{
    let mut said = item.name.clone();
    push_char(&mut said, ' ');
    said.append(item.category.as_str());
    push_char(&mut said, ' ');
    said.append(item.value.as_str());
    push_char(&mut said, ' ');
    said.append(item.note.as_str());
    assert(said@ =~= said_of(*item));
    let lower = to_lowercase(said.as_str());
    chars_of(lower.as_str())
}

/// Whether every word stands in `said`.
fn all_words_in(said: &Vec<char>, ws: &Vec<Vec<char>>) -> (r: bool)
    ensures
        r == forall|k: int| 0 <= k < ws.len() ==> holds(said@, #[trigger] ws@[k]@),
{
    let mut k: usize = 0;
    while k < ws.len()
        invariant
            k <= ws.len(),
            forall|j: int| 0 <= j < k ==> holds(said@, #[trigger] ws@[j]@),
        decreases ws.len() - k,
    {
        if !contains_chars(said, &ws[k]) {
            return false;
        }
        k = k + 1;
    }
    true
}

/// The first `limit` items, in catalogue order, whose name, category, value
/// and note hold every word of `query`, case aside.
pub fn catalogue_matches<'a>(items: &'a Vec<Item>, query: &str, limit: usize) -> (r: Vec<&'a Item>)
    ensures
        r.len() == if limit < matching(items@, query@).len() {
            limit as int
        } else {
            matching(items@, query@).len() as int
        },
        forall|k: int| 0 <= k < r.len() ==> *(#[trigger] r@[k]) == matching(items@, query@)[k],
        r.len() == first_matches(items@, query@, limit as int).len(),
        forall|k: int| 0 <= k < r.len() ==> *(#[trigger] r@[k]) == first_matches(items@, query@, limit as int)[k],
{
    let lower = to_lowercase(query);
    let lower_chars = chars_of(lower.as_str());
    let ws = split_whitespace(&lower_chars);
    let mut found: Vec<&'a Item> = Vec::new();
    let mut i: usize = 0;
    while i < items.len() && found.len() < limit
        invariant
            i <= items.len(),
            found.len() <= limit,
            found.len() == matching(items@.take(i as int), query@).len(),
            forall|k: int| 0 <= k < found.len() ==> *(#[trigger] found@[k]) == matching(
                items@.take(i as int),
                query@,
            )[k],
            ws.len() == words(lowercase_of(query@)).len(),
            forall|k: int| 0 <= k < ws.len() ==> (#[trigger] ws@[k])@ == words(lowercase_of(query@))[k],
        decreases items.len() - i,
    {
        let said = said_lowercase(&items[i]);
        let hit = all_words_in(&said, &ws);
        proof {
            let wq = words(lowercase_of(query@));
            assert(items@.take(i + 1).drop_last() =~= items@.take(i as int));
            assert(items@.take(i + 1).last() == items@[i as int]);
            if hit {
                assert forall|k: int| 0 <= k < wq.len() implies holds(
                    lowercase_of(said_of(items@[i as int])),
                    #[trigger] wq[k],
                ) by {
                    assert(ws@[k]@ == wq[k]);
                }
            } else {
                let k = choose|k: int| 0 <= k < ws.len() && !holds(said@, #[trigger] ws@[k]@);
                assert(ws@[k]@ == wq[k]);
            }
        }
        if hit {
            found.push(&items[i]);
        }
        i = i + 1;
    }
    proof {
        lemma_matching_prefix(items@, query@, i as int);
        if i == items.len() {
            assert(items@.take(i as int) =~= items@);
        }
        let m = matching(items@, query@);
        let p = matching(items@.take(i as int), query@);
        assert forall|k: int| 0 <= k < found.len() implies *(#[trigger] found@[k]) == m[k] by {
            assert(p[k] == m.take(p.len() as int)[k]);
        }
    }
    found
}

/// The categories of the items in group `g`, item by item.
pub open spec fn categories_in(items: Seq<Item>, g: Seq<char>) -> Seq<Seq<char>>
    decreases items.len(),
{
    if items.len() == 0 {
        Seq::empty()
    } else if group(items.last().category@) == g {
        categories_in(items.drop_last(), g).push(items.last().category@)
    } else {
        categories_in(items.drop_last(), g)
    }
}

/// The families of group `g`: its distinct categories, in the order the
/// catalogue first reaches them.
pub open spec fn families(items: Seq<Item>, g: Seq<char>) -> Seq<Seq<char>> {
    tally(categories_in(items, g)).map_values(|entry: (Seq<char>, nat)| entry.0)
}

/// Where `name` stands among `names`, when it does.
fn find_name(names: &Vec<String>, name: &String, t: Ghost<Seq<(Seq<char>, nat)>>) -> (r: Option<usize>)
    requires
        names.len() == t@.len(),
        forall|j: int| 0 <= j < names.len() ==> (#[trigger] names@[j])@ == t@[j].0,
    ensures
        r matches Some(k) ==> slot_from(t@, name@, 0) == Some(k as int) && k < names.len(),
        r is None ==> slot_from(t@, name@, 0) is None,
{
    let mut k: usize = 0;
    while k < names.len()
        invariant
            k <= names.len(),
            names.len() == t@.len(),
            forall|j: int| 0 <= j < names.len() ==> (#[trigger] names@[j])@ == t@[j].0,
            slot_from(t@, name@, 0) == slot_from(t@, name@, k as int),
        decreases names.len() - k,
    {
        if names[k] == *name {
            return Some(k);
        }
        k = k + 1;
    }
    None
}

/// Each distinct name of `names` with how many times it occurs, in the
/// order of first appearance.
pub fn tally_names(names: &Vec<String>) -> (r: Vec<(String, usize)>)
    ensures
        r.len() == tally(names_of(names@)).len(),
        forall|k: int|
            0 <= k < r.len() ==> (#[trigger] r@[k]).0@ == tally(names_of(names@))[k].0
                && r@[k].1 == tally(names_of(names@))[k].1,
{
    let mut counted: Vec<(String, usize)> = Vec::new();
    let mut i: usize = 0;
    while i < names.len()
        invariant
            i <= names.len(),
            counted.len() == tally(names_of(names@).take(i as int)).len(),
            forall|k: int|
                0 <= k < counted.len() ==> (#[trigger] counted@[k]).0@ == tally(
                    names_of(names@).take(i as int),
                )[k].0 && counted@[k].1 == tally(names_of(names@).take(i as int))[k].1,
            forall|k: int| 0 <= k < counted.len() ==> (#[trigger] counted@[k]).1 <= i,
        decreases names.len() - i,
    {
        let g = names[i].clone();
        let ghost seen = names_of(names@).take(i + 1);
        let ghost t = tally(names_of(names@).take(i as int));
        proof {
            assert(seen.drop_last() =~= names_of(names@).take(i as int));
            assert(seen.last() == g@);
            lemma_slot_from(t, g@, 0);
        }
        match find_slot(&counted, &g, Ghost(t)) {
            Some(k) => {
                let n = counted[k].1;
                let name = counted[k].0.clone();
                counted.set(k, (name, n + 1));
            },
            None => {
                counted.push((g, 1));
            },
        }
        proof {
            let t2 = tally(seen);
            assert forall|j: int| 0 <= j < counted.len() implies (#[trigger] counted@[j]).0@ == t2[j].0
                && counted@[j].1 == t2[j].1 by {}
        }
        i = i + 1;
    }
    assert(names_of(names@).take(names.len() as int) =~= names_of(names@));
    counted
}

/// The families of a group in the Add menu: the distinct categories of its
/// items, in catalogue order.
pub fn families_in(items: &Vec<Item>, group_name: &str) -> (r: Vec<String>)
    ensures
        r.len() == families(items@, group_name@).len(),
        forall|k: int| 0 <= k < r.len() ==> (#[trigger] r@[k])@ == families(items@, group_name@)[k],
{
    let g = String::from_str(group_name);
    let mut found: Vec<String> = Vec::new();
    let mut i: usize = 0;
    while i < items.len()
        invariant
            i <= items.len(),
            g@ == group_name@,
            found.len() == tally(categories_in(items@.take(i as int), g@)).len(),
            forall|k: int|
                0 <= k < found.len() ==> (#[trigger] found@[k])@ == tally(
                    categories_in(items@.take(i as int), g@),
                )[k].0,
        decreases items.len() - i,
    {
        let ghost before = items@.take(i as int);
        let ghost after = items@.take(i + 1);
        proof {
            assert(after.drop_last() =~= before);
            assert(after.last() == items@[i as int]);
        }
        let in_group = group_of(items[i].category.as_str());
        if in_group == g {
            let ghost t = tally(categories_in(before, g@));
            let category = items[i].category.clone();
            proof {
                assert(categories_in(after, g@) == categories_in(before, g@).push(category@));
                assert(categories_in(after, g@).drop_last() =~= categories_in(before, g@));
            }
            proof {
                lemma_slot_from(t, category@, 0);
            }
            match find_name(&found, &category, Ghost(t)) {
                Some(_) => {},
                None => {
                    found.push(category);
                },
            }
        } else {
            proof {
                assert(categories_in(after, g@) == categories_in(before, g@));
            }
        }
        i = i + 1;
    }
    assert(items@.take(items.len() as int) =~= items@);
    found
}

/// A group's families are listed once each, and every item of the group
/// is under one of them.
pub proof fn lemma_families(items: Seq<Item>, g: Seq<char>, j: int)
    requires
        0 <= j < items.len(),
        group(items[j].category@) == g,
    ensures
        forall|a: int, b: int|
            0 <= a < b < families(items, g).len() ==> families(items, g)[a] != families(items, g)[b],
        exists|k: int| 0 <= k < families(items, g).len() && families(items, g)[k] == items[j].category@,
{
    let cats = categories_in(items, g);
    lemma_tally(cats);
    lemma_category_listed(items, g, j);
    let m = choose|m: int| 0 <= m < cats.len() && cats[m] == items[j].category@;
    let k = choose|k: int| 0 <= k < tally(cats).len() && tally(cats)[k].0 == #[trigger] cats[m];
    assert(families(items, g)[k] == items[j].category@);
}

proof fn lemma_category_listed(items: Seq<Item>, g: Seq<char>, j: int)
    requires
        0 <= j < items.len(),
        group(items[j].category@) == g,
    ensures
        exists|m: int| 0 <= m < categories_in(items, g).len() && categories_in(items, g)[m] == items[j].category@,
    decreases items.len(),
{
    let rest = items.drop_last();
    if j < items.len() - 1 {
        lemma_category_listed(rest, g, j);
        let m = choose|m: int| 0 <= m < categories_in(rest, g).len() && categories_in(rest, g)[m] == rest[j].category@;
        assert(categories_in(items, g)[m] == items[j].category@);
    } else {
        let c = categories_in(items, g);
        assert(c[c.len() - 1] == items[j].category@);
    }
}

/// Whether a group's menu lists its families as submenus: a group with one
/// family lists that family's parts directly.
pub fn lists_families(families: &Vec<String>) -> (r: bool)
    ensures
        r == (families.len() != 1),
{
    families.len() != 1
}

/// The items of one family, in catalogue order.
pub open spec fn in_family(items: Seq<Item>, family: Seq<char>) -> Seq<Item>
    decreases items.len(),
{
    if items.len() == 0 {
        Seq::empty()
    } else if items.last().category@ == family {
        in_family(items.drop_last(), family).push(items.last())
    } else {
        in_family(items.drop_last(), family)
    }
}

/// The items listed under one family of the Add menu.
pub fn items_in_family<'a>(items: &'a Vec<Item>, family: &str) -> (r: Vec<&'a Item>)
    ensures
        r.len() == in_family(items@, family@).len(),
        forall|k: int| 0 <= k < r.len() ==> *(#[trigger] r@[k]) == in_family(items@, family@)[k],
{
    let f = String::from_str(family);
    let mut r: Vec<&'a Item> = Vec::new();
    let mut i: usize = 0;
    while i < items.len()
        invariant
            i <= items.len(),
            f@ == family@,
            r.len() == in_family(items@.take(i as int), family@).len(),
            forall|k: int| 0 <= k < r.len() ==> *(#[trigger] r@[k]) == in_family(
                items@.take(i as int),
                family@,
            )[k],
        decreases items.len() - i,
    {
        proof {
            assert(items@.take(i + 1).drop_last() =~= items@.take(i as int));
            assert(items@.take(i + 1).last() == items@[i as int]);
        }
        if items[i].category == f {
            r.push(&items[i]);
        }
        i = i + 1;
    }
    assert(items@.take(items.len() as int) =~= items@);
    r
}

/// A family's label inside its group's menu: the second level of its
/// category, "Piston I6" for "Engines / Piston I6", or the whole category
/// when it has one level only.
pub open spec fn family_label_of(family: Seq<char>) -> Seq<char> {
    match find_from(family, group_sep(), 0) {
        None => family,
        Some(i) => {
            let rest = family.skip(i + 3);
            match find_from(rest, group_sep(), 0) {
                Some(j) => rest.take(j),
                None => rest,
            }
        },
    }
}

/// How a family is labelled in its group's menu.
pub fn family_label(family: &str) -> (r: String)
    ensures
        r@ == family_label_of(family@),
{
    let cs = chars_of(family);
    let sep: Vec<char> = vec![' ', '/', ' '];
    assert(sep@ =~= group_sep());
    match find_chars(&cs, &sep, 0) {
        None => string_of(&cs),
        Some(i) => {
            proof {
                lemma_find_from(cs@, sep@, 0);
            }
            assert(i + 3 <= cs.len());
            let rest = skip_chars(&cs, i + 3);
            match find_chars(&rest, &sep, 0) {
                Some(j) => {
                    proof {
                        lemma_find_from(rest@, sep@, 0);
                    }
                    string_of(&take_chars(&rest, j))
                },
                None => string_of(&rest),
            }
        },
    }
}

} // verus!
