//! The Add window's state and its rows: what a row adds, how it is kept
//! among the favourites, and how a kept favourite is found again.

use vstd::prelude::*;

use crate::catalogue::Item;
use crate::naming::{listed, names_of};
use crate::text::{
    begins, chars_of, lemma_index_from_is, first_index_of, index_from, last_index, last_index_of, lemma_last_index, lemma_index_from,
    skip_chars, starts_with, string_of, take_chars,
};

verus! {

/// The Add window: whether it is showing, the search text, the SProps list
/// and heading picked, and whether the search field still has to take the
/// keyboard.
#[derive(Debug)]
pub struct AddWindow {
    pub showing: bool,
    pub query: String,
    pub list: usize,
    pub header: usize,
    pub wants_focus: bool,
}

impl Default for AddWindow {
    fn default() -> (r: Self)
        ensures
            !r.showing,
            r.query@ == Seq::<char>::empty(),
            r.list == 0,
            r.header == 0,
            !r.wants_focus,
    {
        AddWindow { showing: false, query: String::new(), list: 0, header: 0, wants_focus: false }
    }
}

/// The window after it is opened: showing, and the search field to be
/// focused on the next frame.
pub open spec fn opened(w: AddWindow) -> AddWindow {
    AddWindow { showing: true, wants_focus: true, ..w }
}

/// The window once its search field has taken the keyboard.
pub open spec fn focus_taken(w: AddWindow) -> AddWindow {
    AddWindow { wants_focus: false, ..w }
}

impl AddWindow {
    /// Shows the window and asks for the keyboard on its search field.
    pub fn open(&mut self)
        ensures
            *final(self) == opened(*old(self)),
    {
        self.showing = true;
        self.wants_focus = true;
    }

    /// Opens the window with `query` already typed into its search field.
    pub fn open_searching(&mut self, query: &str)
        ensures
            *final(self) == (AddWindow { query: final(self).query, ..opened(*old(self)) }),
            final(self).query@ == query@,
    {
        self.open();
        self.query = String::from_str(query);
    }

    /// Whether the search field should take the keyboard now; asking once
    /// answers it, so the field is focused on one frame only.
    pub fn take_focus(&mut self) -> (r: bool)
        ensures
            r == old(self).wants_focus,
            *final(self) == focus_taken(*old(self)),
    {
        let r = self.wants_focus;
        self.wants_focus = false;
        r
    }

    /// Keeps the picked SProps list among the `lists` there are.
    pub fn fit_list(&mut self, lists: usize)
        ensures
            final(self).list == if old(self).list < lists { old(self).list as int } else if lists
                == 0 {
                0
            } else {
                lists - 1
            },
            *final(self) == (AddWindow { list: final(self).list, ..*old(self) }),
    {
        let top = if lists == 0 { 0 } else { lists - 1 };
        if self.list > top {
            self.list = top;
        }
    }

    /// Keeps the picked heading among the `headers` the list has.
    pub fn fit_header(&mut self, headers: usize)
        ensures
            final(self).header == if old(self).header < headers { old(self).header as int } else if headers
                == 0 {
                0
            } else {
                headers - 1
            },
            *final(self) == (AddWindow { header: final(self).header, ..*old(self) }),
    {
        let top = if headers == 0 { 0 } else { headers - 1 };
        if self.header > top {
            self.header = top;
        }
    }

    /// Picks another SProps list, starting again from its first heading.
    pub fn pick_list(&mut self, list: usize)
        ensures
            *final(self) == (AddWindow { list, header: 0, ..*old(self) }),
    {
        self.list = list;
        self.header = 0;
    }

    /// Hides the window, keeping what was typed and picked.
    pub fn close(&mut self)
        ensures
            *final(self) == (AddWindow { showing: false, ..*old(self) }),
    {
        self.showing = false;
    }
}

/// Opening the window asks for the keyboard once: the first look says yes,
/// the next says no.
pub proof fn lemma_open_focuses_once(w: AddWindow)
    ensures
        opened(w).showing,
        opened(w).wants_focus,
        !focus_taken(opened(w)).wants_focus,
        focus_taken(opened(w)).showing,
        opened(opened(w)) == opened(w),
{
}

/// `names` with every copy of `key` taken out.
pub open spec fn without(names: Seq<Seq<char>>, key: Seq<char>) -> Seq<Seq<char>>
    decreases names.len(),
{
    if names.len() == 0 {
        Seq::empty()
    } else if names.last() == key {
        without(names.drop_last(), key)
    } else {
        without(names.drop_last(), key).push(names.last())
    }
}

/// The favourites after a star is clicked: the key taken out when it was
/// kept, else added at the end.
pub open spec fn toggled(names: Seq<Seq<char>>, key: Seq<char>) -> Seq<Seq<char>> {
    if listed(names, key) {
        without(names, key)
    } else {
        names.push(key)
    }
}

/// No name stands twice in `names`.
pub open spec fn distinct(names: Seq<Seq<char>>) -> bool {
    forall|a: int, b: int| 0 <= a < b < names.len() ==> names[a] != names[b]
}

proof fn lemma_without_distinct(names: Seq<Seq<char>>, key: Seq<char>)
    requires
        distinct(names),
    ensures
        distinct(without(names, key)),
    decreases names.len(),
{
    if names.len() > 0 {
        let rest = names.drop_last();
        assert(distinct(rest)) by {
            assert forall|a: int, b: int| 0 <= a < b < rest.len() implies rest[a] != rest[b] by {
                assert(names[a] == rest[a] && names[b] == rest[b]);
            }
        }
        lemma_without_distinct(rest, key);
        lemma_without(rest, key);
        let w = without(rest, key);
        let last = names.last();
        if last != key {
            if listed(w, last) {
                assert(listed(rest, last));
                let j = choose|j: int| 0 <= j < rest.len() && rest[j] == last;
                assert(names[j] == names[names.len() - 1]);
            }
            assert forall|a: int, b: int| 0 <= a < b < w.push(last).len() implies w.push(last)[a] != w.push(last)[b] by {
                if b == w.len() {
                    assert(w[a] == w.push(last)[a]);
                    if w[a] == last {
                        assert(listed(w, last));
                    }
                }
            }
        }
    }
}

proof fn lemma_without(names: Seq<Seq<char>>, key: Seq<char>)
    ensures
        !listed(without(names, key), key),
        !listed(names, key) ==> without(names, key) == names,
        forall|x: Seq<char>| x != key ==> (listed(without(names, key), x) == listed(names, x)),
    decreases names.len(),
{
    if names.len() > 0 {
        let rest = names.drop_last();
        lemma_without(rest, key);
        let w = without(rest, key);
        if names.last() != key {
            assert forall|x: Seq<char>| x != key implies (listed(without(names, key), x) == listed(names, x)) by {
                if listed(names, x) {
                    let j = choose|j: int| 0 <= j < names.len() && names[j] == x;
                    if j < names.len() - 1 {
                        assert(rest[j] == x);
                        assert(listed(rest, x));
                        assert(listed(w, x));
                        let i = choose|i: int| 0 <= i < w.len() && w[i] == x;
                        assert(w.push(names.last())[i] == x);
                    } else {
                        assert(w.push(names.last())[w.len() as int] == x);
                    }
                }
                if listed(without(names, key), x) {
                    let i = choose|i: int| 0 <= i < w.push(names.last()).len() && w.push(names.last())[i] == x;
                    if i < w.len() {
                        assert(w[i] == x);
                        assert(listed(w, x));
                        assert(listed(rest, x));
                        let j = choose|j: int| 0 <= j < rest.len() && rest[j] == x;
                        assert(names[j] == x);
                    } else {
                        assert(names[names.len() - 1] == x);
                    }
                }
            }
            if !listed(names, key) {
                assert forall|j: int| 0 <= j < rest.len() implies rest[j] != key by {
                    assert(names[j] == rest[j]);
                }
                assert(names =~= rest.push(names.last()));
            }
            if listed(w.push(names.last()), key) {
                let i = choose|i: int| 0 <= i < w.push(names.last()).len() && w.push(names.last())[i] == key;
                assert(i < w.len());
                assert(w[i] == key);
            }
        } else {
            assert(names[names.len() - 1] == key);
            assert forall|x: Seq<char>| x != key implies (listed(without(names, key), x) == listed(names, x)) by {
                if listed(names, x) {
                    let j = choose|j: int| 0 <= j < names.len() && names[j] == x;
                    assert(j < names.len() - 1);
                    assert(rest[j] == x);
                    assert(listed(rest, x));
                }
                if listed(w, x) {
                    assert(listed(rest, x));
                    let j = choose|j: int| 0 <= j < rest.len() && rest[j] == x;
                    assert(names[j] == x);
                }
            }
        }
    }
}

/// A star clicked twice on a part not kept leaves the favourites as they
/// were; each click turns the part's being kept over; and no key is ever
/// kept twice when none was.
pub proof fn lemma_toggle(names: Seq<Seq<char>>, key: Seq<char>)
    ensures
        listed(toggled(names, key), key) == !listed(names, key),
        !listed(names, key) ==> toggled(toggled(names, key), key) == names,
        forall|x: Seq<char>| x != key ==> listed(toggled(names, key), x) == listed(names, x),
        distinct(names) ==> distinct(toggled(names, key)),
{
    lemma_without(names, key);
    if distinct(names) {
        lemma_without_distinct(names, key);
        if !listed(names, key) {
            let p = names.push(key);
            assert forall|a: int, b: int| 0 <= a < b < p.len() implies p[a] != p[b] by {
                if b == names.len() {
                    assert(p[a] == names[a]);
                    if names[a] == key {
                        assert(listed(names, key));
                    }
                }
            }
        }
    }
    let p = names.push(key);
    if !listed(names, key) {
        assert(p[names.len() as int] == key);
        lemma_without(p, key);
        assert(p.drop_last() =~= names);
        assert forall|x: Seq<char>| x != key implies listed(p, x) == listed(names, x) by {
            if listed(p, x) {
                let j = choose|j: int| 0 <= j < p.len() && p[j] == x;
                assert(names[j] == x);
            }
            if listed(names, x) {
                let j = choose|j: int| 0 <= j < names.len() && names[j] == x;
                assert(p[j] == x);
            }
        }
    }
}

/// Whether `key` is among the favourites.
fn is_kept(favs: &Vec<String>, key: &String) -> (r: bool)
    ensures
        r == listed(names_of(favs@), key@),
{
    let mut j: usize = 0;
    while j < favs.len()
        invariant
            j <= favs.len(),
            forall|i: int| 0 <= i < j ==> favs@[i]@ != key@,
        decreases favs.len() - j,
    {
        if favs[j] == *key {
            assert(names_of(favs@)[j as int] == key@);
            return true;
        }
        j = j + 1;
    }
    assert forall|i: int| 0 <= i < names_of(favs@).len() implies names_of(favs@)[i] != key@ by {
        assert(names_of(favs@)[i] == favs@[i]@);
    }
    false
}

/// The star on a row: takes the key out of the favourites when it is kept,
/// else keeps it at the end.
pub fn toggle_favourite(favs: &mut Vec<String>, key: &str)
    ensures
        names_of(final(favs)@) == toggled(names_of(old(favs)@), key@),
{
    let k = String::from_str(key);
    if is_kept(favs, &k) {
        let mut kept: Vec<String> = Vec::new();
        let mut j: usize = 0;
        while j < favs.len()
            invariant
                j <= favs.len(),
                k@ == key@,
                names_of(kept@) == without(names_of(favs@).take(j as int), key@),
            decreases favs.len() - j,
        {
            proof {
                assert(names_of(favs@).take(j + 1).drop_last() =~= names_of(favs@).take(j as int));
                assert(names_of(favs@).take(j + 1).last() == favs@[j as int]@);
            }
            if favs[j] != k {
                let f = favs[j].clone();
                let ghost before = names_of(kept@);
                kept.push(f);
                assert(names_of(kept@) =~= before.push(f@));
            }
            j = j + 1;
        }
        assert(names_of(favs@).take(favs.len() as int) =~= names_of(favs@));
        *favs = kept;
    } else {
        let ghost before = names_of(favs@);
        let kk = k.clone();
        favs.push(kk);
        assert(names_of(favs@) =~= before.push(key@));
    }
}

/// One SProps model: its path under the SProps folder and how it is shown.
#[derive(Debug, PartialEq, Eq)]
pub struct Sprop {
    pub model: String,
    pub label: String,
}

/// What a row adds.
#[derive(Debug, Clone, Copy)]
pub enum Choice<'a> {
    Catalogue(&'a Item),
    Prop(&'a Sprop),
}

/// "catalogue:"
pub open spec fn catalogue_tag() -> Seq<char> {
    seq!['c', 'a', 't', 'a', 'l', 'o', 'g', 'u', 'e', ':']
}

/// "sprops:"
pub open spec fn sprops_tag() -> Seq<char> {
    seq!['s', 'p', 'r', 'o', 'p', 's', ':']
}

/// "SProps / "
pub open spec fn sprops_kind_tag() -> Seq<char> {
    seq!['S', 'P', 'r', 'o', 'p', 's', ' ', '/', ' ']
}

fn catalogue_tag_chars() -> (r: Vec<char>)
    ensures
        r@ == catalogue_tag(),
{
    let r = vec!['c', 'a', 't', 'a', 'l', 'o', 'g', 'u', 'e', ':'];
    assert(r@ =~= catalogue_tag());
    r
}

fn sprops_tag_chars() -> (r: Vec<char>)
    ensures
        r@ == sprops_tag(),
{
    let r = vec!['s', 'p', 'r', 'o', 'p', 's', ':'];
    assert(r@ =~= sprops_tag());
    r
}

/// How a choice is kept among the favourites: "catalogue:<entity>:<value>"
/// or "sprops:<model>".
pub open spec fn key_of(c: Choice) -> Seq<char> {
    match c {
        Choice::Catalogue(item) => catalogue_tag() + item.entity@ + seq![':'] + item.value@,
        Choice::Prop(prop) => sprops_tag() + prop.model@,
    }
}

/// The folder of an SProps model: what stands before its last '/', or
/// nothing.
pub open spec fn folder_of(model: Seq<char>) -> Seq<char> {
    match last_index(model, '/') {
        Some(i) => model.take(i),
        None => Seq::empty(),
    }
}

/// What kind of thing a choice is: a part's category, or the SProps folder.
pub open spec fn kind_of(c: Choice) -> Seq<char> {
    match c {
        Choice::Catalogue(item) => item.category@,
        Choice::Prop(prop) => sprops_kind_tag() + folder_of(prop.model@),
    }
}

/// How a choice is named on its row.
pub open spec fn name_of(c: Choice) -> Seq<char> {
    match c {
        Choice::Catalogue(item) => item.name@,
        Choice::Prop(prop) => prop.label@,
    }
}

/// The first item from `from` on with this entity and value.
pub open spec fn item_from(items: Seq<Item>, entity: Seq<char>, value: Seq<char>, from: int) -> Option<
    int,
>
    decreases items.len() - from,
{
    if from < 0 || from >= items.len() {
        None
    } else if items[from].entity@ == entity && items[from].value@ == value {
        Some(from)
    } else {
        item_from(items, entity, value, from + 1)
    }
}

/// The first model from `from` on with this path.
pub open spec fn prop_from(props: Seq<Sprop>, model: Seq<char>, from: int) -> Option<int>
    decreases props.len() - from,
{
    if from < 0 || from >= props.len() {
        None
    } else if props[from].model@ == model {
        Some(from)
    } else {
        prop_from(props, model, from + 1)
    }
}

/// The item a catalogue key names: the text after "catalogue:" split at its
/// first ':' into entity and value.
pub open spec fn item_target(key: Seq<char>, items: Seq<Item>) -> Option<int> {
    if !begins(key, catalogue_tag()) {
        None
    } else {
        let rest = key.skip(10);
        match index_from(rest, ':', 0) {
            None => None,
            Some(c) => item_from(items, rest.take(c), rest.skip(c + 1), 0),
        }
    }
}

/// The model an SProps key names.
pub open spec fn prop_target(key: Seq<char>, props: Seq<Sprop>) -> Option<int> {
    prop_from(props, key.skip(7), 0)
}

proof fn lemma_item_from_is(items: Seq<Item>, entity: Seq<char>, value: Seq<char>, from: int, k: int)
    requires
        0 <= from <= k < items.len(),
        items[k].entity@ == entity && items[k].value@ == value,
        forall|j: int| from <= j < k ==> !(items[j].entity@ == entity && items[j].value@ == value),
    ensures
        item_from(items, entity, value, from) == Some(k),
    decreases k - from,
{
    if from < k {
        lemma_item_from_is(items, entity, value, from + 1, k);
    }
}

proof fn lemma_prop_from_is(props: Seq<Sprop>, model: Seq<char>, from: int, k: int)
    requires
        0 <= from <= k < props.len(),
        props[k].model@ == model,
        forall|j: int| from <= j < k ==> props[j].model@ != model,
    ensures
        prop_from(props, model, from) == Some(k),
    decreases k - from,
{
    if from < k {
        lemma_prop_from_is(props, model, from + 1, k);
    }
}

/// A part's favourite key finds that part again, when its entity holds no
/// ':' and no part before it has the same entity and value.
pub proof fn lemma_catalogue_key_roundtrip(items: Seq<Item>, k: int)
    requires
        0 <= k < items.len(),
        forall|j: int| 0 <= j < items[k].entity@.len() ==> items[k].entity@[j] != ':',
        forall|j: int|
            0 <= j < k ==> !(items[j].entity@ == items[k].entity@ && items[j].value@
                == items[k].value@),
    ensures
        !begins(key_of(Choice::Catalogue(&items[k])), sprops_tag()),
        item_target(key_of(Choice::Catalogue(&items[k])), items) == Some(k),
{
    let item = items[k];
    let e = item.entity@;
    let v = item.value@;
    let key = key_of(Choice::Catalogue(&items[k]));
    assert(key[0] == 'c');
    assert(sprops_tag()[0] == 's');
    if begins(key, sprops_tag()) {
        assert(key.take(7)[0] == key[0]);
    }
    assert(key.take(10) =~= catalogue_tag());
    let rest = key.skip(10);
    assert(rest =~= e + seq![':'] + v);
    lemma_index_from_is(rest, ':', 0, e.len() as int);
    assert(rest.take(e.len() as int) =~= e);
    assert(rest.skip(e.len() as int + 1) =~= v);
    lemma_item_from_is(items, e, v, 0, k);
}

/// A model's favourite key finds that model again, when no model before it
/// has the same path.
pub proof fn lemma_sprops_key_roundtrip(props: Seq<Sprop>, k: int)
    requires
        0 <= k < props.len(),
        forall|j: int| 0 <= j < k ==> props[j].model@ != props[k].model@,
    ensures
        begins(key_of(Choice::Prop(&props[k])), sprops_tag()),
        prop_target(key_of(Choice::Prop(&props[k])), props) == Some(k),
{
    let key = key_of(Choice::Prop(&props[k]));
    assert(key.take(7) =~= sprops_tag());
    assert(key.skip(7) =~= props[k].model@);
    lemma_prop_from_is(props, props[k].model@, 0, k);
}

impl<'a> Choice<'a> {
    /// How it is kept in the config's favourites.
    pub fn key(&self) -> (r: String)
        ensures
            r@ == key_of(*self),
    {
        match self {
            Choice::Catalogue(item) => {
                let mut k = catalogue_tag_chars();
                let e = chars_of(item.entity.as_str());
                let v = chars_of(item.value.as_str());
                let ghost k0 = k@;
                let mut i: usize = 0;
                while i < e.len()
                    invariant
                        i <= e.len(),
                        k@ == k0 + e@.take(i as int),
                    decreases e.len() - i,
                {
                    k.push(e[i]);
                    i = i + 1;
                    assert(k@ =~= k0 + e@.take(i as int));
                }
                k.push(':');
                let ghost k1 = k@;
                let mut j: usize = 0;
                while j < v.len()
                    invariant
                        j <= v.len(),
                        k@ == k1 + v@.take(j as int),
                    decreases v.len() - j,
                {
                    k.push(v[j]);
                    j = j + 1;
                    assert(k@ =~= k1 + v@.take(j as int));
                }
                assert(e@.take(e.len() as int) =~= e@);
                assert(v@.take(v.len() as int) =~= v@);
                assert(k@ =~= key_of(*self));
                string_of(&k)
            },
            Choice::Prop(prop) => {
                let mut k = string_of(&sprops_tag_chars());
                k.append(prop.model.as_str());
                k
            },
        }
    }

    /// The choice a favourite's key names, when it still names one: the
    /// first model with that path, or the first part with that entity and
    /// value.
    pub fn from_key(key: &str, items: &'a Vec<Item>, props: &'a Vec<Sprop>) -> (r: Option<Choice<'a>>)
        ensures
            begins(key@, sprops_tag()) ==> match prop_target(key@, props@) {
                None => r is None,
                Some(k) => r matches Some(Choice::Prop(p)) && *p == props@[k],
            },
            !begins(key@, sprops_tag()) ==> match item_target(key@, items@) {
                None => r is None,
                Some(k) => r matches Some(Choice::Catalogue(it)) && *it == items@[k],
            },
    {
        let ks = chars_of(key);
        let tag = sprops_tag_chars();
        if starts_with(&ks, &tag) {
            assert(begins(key@, sprops_tag()));
            let name = string_of(&skip_chars(&ks, 7));
            let mut i: usize = 0;
            while i < props.len()
                invariant
                    i <= props.len(),
                    name@ == key@.skip(7),
                    begins(key@, sprops_tag()),
                    prop_target(key@, props@) == prop_from(props@, name@, i as int),
                decreases props.len() - i,
            {
                if props[i].model == name {
                    return Some(Choice::Prop(&props[i]));
                }
                i = i + 1;
            }
            return None;
        }
        if !starts_with(&ks, &catalogue_tag_chars()) {
            return None;
        }
        let rest = skip_chars(&ks, 10);
        let c = match first_index_of(&rest, ':') {
            Some(c) => c,
            None => return None,
        };
        proof {
            lemma_index_from(rest@, ':', 0);
        }
        let entity = string_of(&take_chars(&rest, c));
        let value = string_of(&skip_chars(&rest, c + 1));
        let mut i: usize = 0;
        while i < items.len()
            invariant
                i <= items.len(),
                item_target(key@, items@) == item_from(items@, entity@, value@, i as int),
                !begins(key@, sprops_tag()),
            decreases items.len() - i,
        {
            if items[i].entity == entity && items[i].value == value {
                return Some(Choice::Catalogue(&items[i]));
            }
            i = i + 1;
        }
        None
    }

    /// The name on the row.
    pub fn name(&self) -> (r: String)
        ensures
            r@ == name_of(*self),
    {
        match self {
            Choice::Catalogue(item) => item.name.clone(),
            Choice::Prop(prop) => prop.label.clone(),
        }
    }

    /// What kind of thing it is: the part's category, or "SProps / " and
    /// the model's folder.
    pub fn kind(&self) -> (r: String)
        ensures
            r@ == kind_of(*self),
    {
        match self {
            Choice::Catalogue(item) => item.category.clone(),
            Choice::Prop(prop) => {
                let mut k = vec!['S', 'P', 'r', 'o', 'p', 's', ' ', '/', ' '];
                assert(k@ =~= sprops_kind_tag());
                let m = chars_of(prop.model.as_str());
                proof {
                    lemma_last_index(m@, '/');
                }
                let folder = match last_index_of(&m, '/') {
                    Some(i) => take_chars(&m, i),
                    None => Vec::new(),
                };
                let ghost k0 = k@;
                let mut i: usize = 0;
                while i < folder.len()
                    invariant
                        i <= folder.len(),
                        k@ == k0 + folder@.take(i as int),
                    decreases folder.len() - i,
                {
                    k.push(folder[i]);
                    i = i + 1;
                    assert(k@ =~= k0 + folder@.take(i as int));
                }
                assert(folder@.take(folder.len() as int) =~= folder@);
                assert(folder@ =~= folder_of(prop.model@));
                string_of(&k)
            },
        }
    }
}

} // verus!
