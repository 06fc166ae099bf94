//! File names the editor makes up and reads: new dupes, autosaves, and
//! which entities are chips.

use vstd::prelude::*;

use crate::text::{
    last_index, last_index_of, lemma_last_index, same_chars, skip_chars, string_of, take_chars, begins, chars_of, dec, decimal, ends, ends_with, lemma_dec_injective, lemma_dec_len,
    lowercase_of, push_char, starts_with, to_lowercase,
};

verus! {

/// ".txt"
pub open spec fn txt() -> Seq<char> {
    seq!['.', 't', 'x', 't']
}

/// The `n`th name tried for a new file: `stem.txt`, then `stem-2.txt`,
/// `stem-3.txt` and so on.
pub open spec fn numbered(stem: Seq<char>, n: nat) -> Seq<char> {
    if n <= 1 {
        stem + txt()
    } else {
        stem + seq!['-'] + dec(n) + txt()
    }
}

fn push_txt(s: &mut String)
    ensures
        final(s)@ == old(s)@ + txt(),
{
    push_char(s, '.');
    push_char(s, 't');
    push_char(s, 'x');
    push_char(s, 't');
    assert(final(s)@ =~= old(s)@ + txt());
}

/// The `n`th file name tried for `stem` in a folder, counting from 1: the
/// first that is free is the one a new dupe gets.
pub fn numbered_name(stem: &str, n: u128) -> (r: String)
    requires
        n >= 1,
    ensures
        r@ == numbered(stem@, n as nat),
{
    let mut s = String::from_str(stem);
    if n >= 2 {
        push_char(&mut s, '-');
        let d = decimal(n);
        s.append(d.as_str());
    }
    push_txt(&mut s);
    s
}

/// No two tries give the same name, so the search for a free one never
/// tries a name twice.
pub proof fn lemma_numbered_distinct(stem: Seq<char>, a: nat, b: nat)
    requires
        1 <= a,
        1 <= b,
        a != b,
    ensures
        numbered(stem, a) != numbered(stem, b),
{
    lemma_dec_len(a);
    lemma_dec_len(b);
    assert(txt().len() == 4);
    assert(a >= 2 ==> numbered(stem, a).len() == stem.len() + 1 + dec(a).len() + 4);
    assert(b >= 2 ==> numbered(stem, b).len() == stem.len() + 1 + dec(b).len() + 4);
    assert(a < 2 ==> numbered(stem, a).len() == stem.len() + 4);
    assert(b < 2 ==> numbered(stem, b).len() == stem.len() + 4);
    if numbered(stem, a) == numbered(stem, b) {
        if a >= 2 && b >= 2 {
            let na = numbered(stem, a);
            let nb = numbered(stem, b);
            let la = dec(a).len() as int;
            let n0 = stem.len() as int + 1;
            assert(dec(b).len() == dec(a).len());
            assert(dec(a) =~= na.subrange(n0, n0 + la));
            assert(dec(b) =~= nb.subrange(n0, n0 + la));
            lemma_dec_injective(a, b);
        }
    }
}

/// `name` is one of `names`.
pub open spec fn listed(names: Seq<Seq<char>>, name: Seq<char>) -> bool {
    exists|j: int| 0 <= j < names.len() && names[j] == name
}

/// The names of the files in a folder, as sequences of characters.
pub open spec fn names_of(files: Seq<String>) -> Seq<Seq<char>> {
    files.map_values(|f: String| f@)
}

/// When the first `k` tries are all taken, there are at least `k` names
/// taken.
proof fn lemma_tries_bound(stem: Seq<char>, names: Seq<Seq<char>>, k: nat)
    requires
        forall|m: nat| 1 <= m <= k ==> listed(names, #[trigger] numbered(stem, m)),
    ensures
        k <= names.len(),
    decreases k,
{
    if k > 0 {
        let j = choose|j: int| 0 <= j < names.len() && names[j] == numbered(stem, k);
        let rest = names.remove(j);
        assert forall|m: nat| 1 <= m <= (k - 1) as nat implies listed(rest, #[trigger] numbered(stem, m)) by {
            assert(listed(names, numbered(stem, m)));
            let i = choose|i: int| 0 <= i < names.len() && names[i] == numbered(stem, m);
            lemma_numbered_distinct(stem, m, k);
            assert(i != j);
            if i < j {
                assert(rest[i] == names[i]);
            } else {
                assert(rest[i - 1] == names[i]);
            }
        }
        lemma_tries_bound(stem, rest, (k - 1) as nat);
    }
}

/// Whether `name` is among `files`.
fn is_listed(files: &Vec<String>, name: &String) -> (r: bool)
    ensures
        r == listed(names_of(files@), name@),
{
    let mut j: usize = 0;
    while j < files.len()
        invariant
            j <= files.len(),
            forall|i: int| 0 <= i < j ==> files@[i]@ != name@,
        decreases files.len() - j,
    {
        if files[j] == *name {
            assert(names_of(files@)[j as int] == name@);
            return true;
        }
        j = j + 1;
    }
    assert forall|i: int| 0 <= i < names_of(files@).len() implies names_of(files@)[i] != name@ by {
        assert(names_of(files@)[i] == files@[i]@);
    }
    false
}

/// The name a new file `stem` gets in a folder holding `taken`: the first
/// of `stem.txt`, `stem-2.txt`, `stem-3.txt`, ... that is not taken.
pub fn first_free(stem: &str, taken: &Vec<String>) -> (r: String)
    ensures
        exists|n: nat| {
            &&& n >= 1
            &&& r@ == numbered(stem@, n)
            &&& !listed(names_of(taken@), numbered(stem@, n))
            &&& forall|m: nat| 1 <= m < n ==> listed(names_of(taken@), #[trigger] numbered(stem@, m))
        },
{
    let mut n: u128 = 1;
    loop
        invariant
            n >= 1,
            n <= taken.len() + 1,
            forall|m: nat| 1 <= m < n ==> listed(names_of(taken@), #[trigger] numbered(stem@, m)),
        decreases taken.len() + 1 - n,
    {
        let name = numbered_name(stem, n);
        if !is_listed(taken, &name) {
            assert(n >= 1 && name@ == numbered(stem@, n as nat));
            return name;
        }
        proof {
            assert(forall|m: nat| 1 <= m <= n ==> listed(names_of(taken@), #[trigger] numbered(stem@, m)));
            lemma_tries_bound(stem@, names_of(taken@), n as nat);
        }
        n = n + 1;
    }
}

/// ".autosave.txt"
pub open spec fn autosave_tail() -> Seq<char> {
    seq!['.', 'a', 'u', 't', 'o', 's', 'a', 'v', 'e', '.', 't', 'x', 't']
}

/// The autosave kept beside a dupe named `stem`: `stem.autosave.txt`.
pub fn autosave_name(stem: &str) -> (r: String)
    ensures
        r@ == stem@ + autosave_tail(),
{
    let mut s = String::from_str(stem);
    let tail = ['.', 'a', 'u', 't', 'o', 's', 'a', 'v', 'e'];
    let mut i: usize = 0;
    let ghost start = s@;
    while i < 9
        invariant
            i <= 9,
            s@ == start + tail@.take(i as int),
        decreases 9 - i,
    {
        push_char(&mut s, tail[i]);
        i = i + 1;
        assert(s@ =~= start + tail@.take(i as int));
    }
    push_txt(&mut s);
    assert(s@ =~= stem@ + autosave_tail());
    s
}

/// Whether a path names an autosave, case aside: a restored autosave is
/// not a dupe of its own.
pub fn is_autosave(path: &str) -> (r: bool)
    ensures
        r == ends(lowercase_of(path@), autosave_tail()),
{
    let lower = to_lowercase(path);
    let cs = chars_of(lower.as_str());
    let tail = vec!['.', 'a', 'u', 't', 'o', 's', 'a', 'v', 'e', '.', 't', 'x', 't'];
    assert(tail@ =~= autosave_tail());
    ends_with(&cs, &tail)
}

/// An autosave's own name ends the way `is_autosave` looks for (before
/// the lowercasing, which is not spelled out here).
pub proof fn lemma_autosave_name_is_autosave(stem: Seq<char>)
    ensures
        ends(stem + autosave_tail(), autosave_tail()),
{
    let s = stem + autosave_tail();
    assert(s.skip(s.len() - autosave_tail().len()) =~= autosave_tail());
}

/// `path` without the separators and "." components that end it, as
/// `std::path::Path` reads past them: a lone "/" or "." stays.
pub open spec fn trim_tail(path: Seq<char>) -> Seq<char>
    decreases path.len(),
{
    if path.len() > 1 && path.last() == '/' {
        trim_tail(path.drop_last())
    } else if path.len() > 1 && path.last() == '.' && path[path.len() - 2] == '/' {
        trim_tail(path.drop_last())
    } else {
        path
    }
}

/// Where the last component of a trimmed path starts: after its last '/'.
pub open spec fn last_start(t: Seq<char>) -> int {
    match last_index(t, '/') {
        Some(i) => i + 1,
        None => 0,
    }
}

/// The file name of a path, as `Path::file_name` gives it: its last
/// component, unless that is the root, ".", ".." or nothing.
pub open spec fn file_name_of(path: Seq<char>) -> Option<Seq<char>> {
    let t = trim_tail(path);
    let seg = t.skip(last_start(t));
    if seg.len() == 0 || seg == seq!['.'] || seg == seq!['.', '.'] {
        None
    } else {
        Some(seg)
    }
}

/// The folder a path's file name stands in, as `Path::parent` writes it:
/// what comes before the last component, with the separators and "."
/// components that end it taken off.
pub open spec fn parent_of(path: Seq<char>) -> Seq<char> {
    let t = trim_tail(path);
    trim_tail(t.take(last_start(t)))
}

/// A file name without its extension: what stands before its last '.',
/// or the whole name when it has no '.' but a leading one.
pub open spec fn stem_of_name(name: Seq<char>) -> Seq<char> {
    match last_index(name, '.') {
        Some(i) => if i == 0 {
            name
        } else {
            name.take(i)
        },
        None => name,
    }
}

/// The file stem of a path, as `Path::file_stem` gives it.
pub open spec fn file_stem_of(path: Seq<char>) -> Option<Seq<char>> {
    match file_name_of(path) {
        Some(name) => Some(stem_of_name(name)),
        None => None,
    }
}

/// `name` pushed onto `base` as `PathBuf::push` does for a relative name:
/// a '/' between them unless `base` is empty or ends with one.
pub open spec fn join(base: Seq<char>, name: Seq<char>) -> Seq<char> {
    if base.len() == 0 {
        name
    } else if base.last() == '/' {
        base + name
    } else {
        base + seq!['/'] + name
    }
}

/// "dupe", the stem of an autosave for a path that names no file.
pub open spec fn default_stem() -> Seq<char> {
    seq!['d', 'u', 'p', 'e']
}

/// The autosave beside the dupe at `path`, as `Path::with_file_name` puts
/// it: the file name replaced by the dupe's stem (or "dupe") and
/// ".autosave.txt", or that name added when the path names no file.
pub open spec fn autosave_path_of(path: Seq<char>) -> Seq<char> {
    let name = match file_stem_of(path) {
        Some(stem) => stem,
        None => default_stem(),
    } + autosave_tail();
    match file_name_of(path) {
        Some(_) => join(parent_of(path), name),
        None => join(path, name),
    }
}

/// A place that holds `c` with none after it is what `last_index` finds.
proof fn lemma_last_index_is(s: Seq<char>, c: char, i: int)
    requires
        0 <= i < s.len(),
        s[i] == c,
        forall|j: int| i < j < s.len() ==> s[j] != c,
    ensures
        last_index(s, c) == Some(i),
{
    lemma_last_index(s, c);
}

/// The autosave of a dupe at `dir/base.ext` (or `base.ext` with no folder)
/// is `dir/base.autosave.txt`, and the dupe's stem is `base`: for a base
/// with no '.' or '/', an extension with none either, and a folder that
/// does not end in '/' or '.'.
pub proof fn lemma_autosave_of_plain_path(dir: Seq<char>, base: Seq<char>, ext: Seq<char>)
    requires
        base.len() > 0,
        forall|i: int| 0 <= i < base.len() ==> #[trigger] base[i] != '/' && base[i] != '.',
        forall|i: int| 0 <= i < ext.len() ==> #[trigger] ext[i] != '/' && ext[i] != '.',
        dir.len() > 0 ==> dir.last() != '/' && dir.last() != '.',
    ensures
        file_stem_of(if dir.len() == 0 { base + seq!['.'] + ext } else { dir + seq!['/'] + base + seq!['.'] + ext })
            == Some(base),
        autosave_path_of(
            if dir.len() == 0 { base + seq!['.'] + ext } else { dir + seq!['/'] + base + seq!['.'] + ext },
        ) == if dir.len() == 0 {
            base + autosave_tail()
        } else {
            dir + seq!['/'] + base + autosave_tail()
        },
{
    let name = base + seq!['.'] + ext;
    let d = dir.len() as int;
    let b = base.len() as int;
    assert(name[b] == '.');
    assert forall|j: int| b < j < name.len() implies name[j] != '.' by {
        assert(name[j] == ext[j - b - 1]);
    }
    lemma_last_index_is(name, '.', b);
    assert(name.take(b) =~= base);
    assert(stem_of_name(name) == base);
    assert forall|j: int| 0 <= j < name.len() implies name[j] != '/' by {
        if j < b {
            assert(name[j] == base[j]);
        } else if j > b {
            assert(name[j] == ext[j - b - 1]);
        }
    }
    assert(name[0] == base[0]);
    assert(name.len() >= 2);
    assert(name != seq!['.']);
    assert(name != seq!['.', '.']) by {
        if name == seq!['.', '.'] {
            assert(name[0] == '.');
        }
    }
    assert(name.last() != '/');
    assert(name.last() == '.' ==> name[name.len() - 2] != '/');
    let full = base + autosave_tail();
    if d == 0 {
        lemma_last_index(name, '/');
        assert(trim_tail(name) == name);
        assert(last_index(name, '/') is None);
        assert(name.skip(0) =~= name);
        assert(file_name_of(name) == Some(name));
        assert(name.take(0) =~= Seq::<char>::empty());
        assert(parent_of(name) == Seq::<char>::empty());
    } else {
        let p = dir + seq!['/'] + name;
        assert(p =~= dir + seq!['/'] + base + seq!['.'] + ext);
        assert(p.last() == name.last());
        assert(p[p.len() - 2] == name[name.len() - 2]);
        assert(trim_tail(p) == p);
        assert(p[d] == '/');
        assert forall|j: int| d < j < p.len() implies p[j] != '/' by {
            assert(p[j] == name[j - d - 1]);
        }
        lemma_last_index_is(p, '/', d);
        assert(p.skip(d + 1) =~= name);
        assert(file_name_of(p) == Some(name));
        let front = p.take(d + 1);
        assert(front =~= dir.push('/'));
        assert(front.drop_last() =~= dir);
        assert(trim_tail(dir) == dir);
        assert(trim_tail(front) == dir);
        assert(parent_of(p) == dir);
        assert(join(dir, full) =~= dir + seq!['/'] + base + autosave_tail());
    }
}

/// `cs` with the separators and "." components that end it taken off.
fn trim_tail_chars(cs: &Vec<char>) -> (r: Vec<char>)
    ensures
        r@ == trim_tail(cs@),
{
    let mut t = take_chars(cs, cs.len());
    assert(cs@.take(cs.len() as int) =~= cs@);
    while t.len() > 1 && (t[t.len() - 1] == '/' || (t[t.len() - 1] == '.' && t[t.len() - 2] == '/'))
        invariant
            trim_tail(t@) == trim_tail(cs@),
        decreases t.len(),
    {
        let ghost before = t@;
        t.pop();
        assert(t@ =~= before.drop_last());
    }
    t
}

/// Where the last component of `t` starts.
fn last_start_of(t: &Vec<char>) -> (r: usize)
    ensures
        r == last_start(t@),
        r <= t.len(),
{
    proof {
        lemma_last_index(t@, '/');
    }
    match last_index_of(t, '/') {
        Some(i) => {
            assert(last_index(t@, '/') == Some(i as int));
            assert(i < t.len());
            i + 1
        },
        None => 0,
    }
}

/// The file name of a path, as `Path::file_name` gives it.
fn file_name_chars(cs: &Vec<char>) -> (r: Option<Vec<char>>)
    ensures
        r is None <==> file_name_of(cs@) is None,
        r matches Some(n) ==> file_name_of(cs@) == Some(n@),
{
    let t = trim_tail_chars(cs);
    let start = last_start_of(&t);
    let seg = skip_chars(&t, start);
    let dot: Vec<char> = vec!['.'];
    let dots: Vec<char> = vec!['.', '.'];
    assert(dot@ =~= seq!['.']);
    assert(dots@ =~= seq!['.', '.']);
    if seg.len() == 0 || same_chars(&seg, &dot) || same_chars(&seg, &dots) {
        None
    } else {
        Some(seg)
    }
}

/// The file stem of a path, as `Path::file_stem` gives it.
pub fn file_stem(path: &str) -> (r: Option<String>)
    ensures
        r is None <==> file_stem_of(path@) is None,
        r matches Some(s) ==> file_stem_of(path@) == Some(s@),
{
    let cs = chars_of(path);
    let name = match file_name_chars(&cs) {
        Some(name) => name,
        None => return None,
    };
    proof {
        lemma_last_index(name@, '.');
    }
    match last_index_of(&name, '.') {
        Some(i) => if i == 0 {
            Some(string_of(&name))
        } else {
            Some(string_of(&take_chars(&name, i)))
        },
        None => Some(string_of(&name)),
    }
}

/// `name` pushed onto `base`.
fn join_chars(base: &Vec<char>, name: &Vec<char>) -> (r: Vec<char>)
    ensures
        r@ == join(base@, name@),
{
    let mut r = take_chars(base, base.len());
    assert(base@.take(base.len() as int) =~= base@);
    if base.len() > 0 && base[base.len() - 1] != '/' {
        r.push('/');
    }
    let ghost start = r@;
    let mut i: usize = 0;
    while i < name.len()
        invariant
            i <= name.len(),
            r@ == start + name@.take(i as int),
        decreases name.len() - i,
    {
        r.push(name[i]);
        i = i + 1;
        assert(r@ =~= start + name@.take(i as int));
    }
    assert(name@.take(name.len() as int) =~= name@);
    assert(r@ =~= join(base@, name@));
    r
}

/// The autosave kept beside the dupe at `path`: `name.autosave.txt` in the
/// dupe's folder, "dupe" standing in for a path that names no file, as
/// `path.with_file_name(..)` gives it.
pub fn autosave_path(path: &str) -> (r: String)
    ensures
        r@ == autosave_path_of(path@),
{
    let cs = chars_of(path);
    let stem = match file_stem(path) {
        Some(stem) => stem,
        None => {
            let d = vec!['d', 'u', 'p', 'e'];
            assert(d@ =~= default_stem());
            string_of(&d)
        },
    };
    let name = chars_of(autosave_name(stem.as_str()).as_str());
    let base = match file_name_chars(&cs) {
        Some(_) => {
            let t = trim_tail_chars(&cs);
            let start = last_start_of(&t);
            trim_tail_chars(&take_chars(&t, start))
        },
        None => cs,
    };
    string_of(&join_chars(&base, &name))
}

/// An autosave lies in the folder of its dupe: its path begins with that
/// folder's.
pub proof fn lemma_autosave_beside(path: Seq<char>)
    requires
        file_name_of(path) is Some,
    ensures
        autosave_path_of(path).take(parent_of(path).len() as int) == parent_of(path),
{
    let base = parent_of(path);
    let name = match file_stem_of(path) {
        Some(stem) => stem,
        None => default_stem(),
    } + autosave_tail();
    assert(join(base, name).take(base.len() as int) =~= base);
}

/// What a tick of the autosave timer does: whether the interval has
/// passed, so the timer starts again, and whether a file is written.
#[derive(Debug, Clone, Copy, PartialEq, Eq, Structural)]
pub struct AutosaveTick {
    pub restart: bool,
    pub write: bool,
}

/// One tick: with `every` seconds between autosaves (0 for never) and
/// `elapsed` since the last, a dupe that is open and has unsaved changes is
/// written once the interval has passed.
pub fn autosave_tick(every: u64, elapsed: u64, open: bool, dirty: bool) -> (r: AutosaveTick)
    ensures
        r.restart == (every != 0 && elapsed >= every),
        r.write == (r.restart && open && dirty),
{
    if every == 0 || elapsed < every {
        return AutosaveTick { restart: false, write: false };
    }
    AutosaveTick { restart: true, write: open && dirty }
}

/// Whether an entity class, case aside, is a chip the chip editor opens: an
/// Expression 2 chip or any Starfall entity.
pub fn is_chip_class(class: &str) -> (r: bool)
    ensures
        r == (lowercase_of(class@) == "gmod_wire_expression2"@ || begins(
            lowercase_of(class@),
            "starfall_"@,
        )),
{
    let lower = to_lowercase(class);
    let e2 = String::from_str("gmod_wire_expression2");
    if lower == e2 {
        return true;
    }
    let cs = chars_of(lower.as_str());
    let sf = chars_of("starfall_");
    starts_with(&cs, &sf)
}

} // verus!
