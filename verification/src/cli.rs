//! How the command line reads its arguments: flags, the values after them,
//! and `Key=Value` settings.

use vstd::prelude::*;

use crate::text::{
    begins, find_chars, find_from, lemma_find_from, starts_with,
    all_white, chars_of, first_index_of, index_from, is_blank, lemma_index_from, skip_chars,
    string_of, take_chars,
};

verus! {

/// `Key=Value` split at its first '=', when the key is not empty.
pub open spec fn pair_of(s: Seq<char>) -> Option<(Seq<char>, Seq<char>)> {
    match index_from(s, '=', 0) {
        None => None,
        Some(i) => if i == 0 {
            None
        } else {
            Some((s.take(i), s.skip(i + 1)))
        },
    }
}

/// Splits "Key=Value" once, so values containing '=' survive; `None` when
/// there is no '=' or nothing before it.
pub fn parse_pair(s: &str) -> (r: Option<(String, String)>)
    ensures
        r is None <==> pair_of(s@) is None,
        r matches Some((k, v)) ==> pair_of(s@) == Some((k@, v@)),
{
    let cs = chars_of(s);
    let at = match first_index_of(&cs, '=') {
        Some(at) => at,
        None => return None,
    };
    proof {
        lemma_index_from(cs@, '=', 0);
    }
    if at == 0 {
        return None;
    }
    Some((string_of(&take_chars(&cs, at)), string_of(&skip_chars(&cs, at + 1))))
}

/// What `parse_pair` takes apart it gives back whole: the key, '=', the
/// value; and the key is not empty and holds no '='.
pub proof fn lemma_pair_roundtrip(s: Seq<char>)
    ensures
        pair_of(s) matches Some((k, v)) ==> {
            &&& k + seq!['='] + v == s
            &&& k.len() > 0
            &&& forall|j: int| 0 <= j < k.len() ==> k[j] != '='
        },
{
    lemma_index_from(s, '=', 0);
    if let Some((k, v)) = pair_of(s) {
        let i = index_from(s, '=', 0).unwrap();
        assert(k + seq!['='] + v =~= s);
    }
}

/// The first place `flag` stands among `args`.
pub open spec fn position_from(args: Seq<String>, flag: Seq<char>, from: int) -> Option<int>
    decreases args.len() - from,
{
    if from < 0 || from >= args.len() {
        None
    } else if args[from]@ == flag {
        Some(from)
    } else {
        position_from(args, flag, from + 1)
    }
}

/// The argument after the first `flag`, when there is one.
pub open spec fn value_after(args: Seq<String>, flag: Seq<char>) -> Option<Seq<char>> {
    match position_from(args, flag, 0) {
        Some(at) => if at + 1 < args.len() {
            Some(args[at + 1]@)
        } else {
            None
        },
        None => None,
    }
}

/// Where `flag` first stands among `args`.
pub fn position(args: &Vec<String>, flag: &str) -> (r: Option<usize>)
    ensures
        r matches Some(at) ==> position_from(args@, flag@, 0) == Some(at as int) && at < args.len(),
        r is None ==> position_from(args@, flag@, 0) is None,
{
    let f = String::from_str(flag);
    let mut i: usize = 0;
    while i < args.len()
        invariant
            i <= args.len(),
            f@ == flag@,
            position_from(args@, flag@, 0) == position_from(args@, flag@, i as int),
        decreases args.len() - i,
    {
        if args[i] == f {
            return Some(i);
        }
        i = i + 1;
    }
    None
}

/// The value given after `flag`: `--models <garrysmod>` gives the folder.
pub fn flag_value(args: &Vec<String>, flag: &str) -> (r: Option<String>)
    ensures
        r is None <==> value_after(args@, flag@) is None,
        r matches Some(v) ==> value_after(args@, flag@) == Some(v@),
{
    match position(args, flag) {
        Some(at) => if at + 1 < args.len() {
            Some(args[at + 1].clone())
        } else {
            None
        },
        None => None,
    }
}

/// Whether `flag` is among `args`.
pub fn has_flag(args: &Vec<String>, flag: &str) -> (r: bool)
    ensures
        r == (position_from(args@, flag@, 0) is Some),
{
    position(args, flag).is_some()
}

/// Whether the first argument after the program's name is `verb`.
pub fn verb_is(args: &Vec<String>, verb: &str) -> (r: bool)
    ensures
        r == (args@.len() > 1 && args@[1]@ == verb@),
{
    if args.len() > 1 {
        let v = String::from_str(verb);
        args[1] == v
    } else {
        false
    }
}

/// A folder the editor's settings give, when it is set to more than white
/// space: the same file `ad2edit` writes, so a machine set up once needs
/// no flag.
pub fn configured_folder(value: &String) -> (r: Option<String>)
    ensures
        r is None <==> all_white(value@),
        r matches Some(v) ==> v@ == value@,
{
    if is_blank(value.as_str()) {
        None
    } else {
        Some(value.clone())
    }
}

/// `s` with every leading copy of `p` taken off, as
/// `str::trim_start_matches` does with a string pattern.
pub open spec fn strip_leading(s: Seq<char>, p: Seq<char>) -> Seq<char>
    decreases s.len(),
{
    if p.len() > 0 && begins(s, p) {
        strip_leading(s.skip(p.len() as int), p)
    } else {
        s
    }
}

/// "wrote "
pub open spec fn wrote_tag() -> Seq<char> {
    seq!['w', 'r', 'o', 't', 'e', ' ']
}

/// " ("
pub open spec fn paren_tag() -> Seq<char> {
    seq![' ', '(']
}

/// The file a build's "wrote <file> (...)" line names: the line without
/// its leading "wrote ", up to its first " (".
pub open spec fn built_path_of(line: Seq<char>) -> Seq<char> {
    let rest = strip_leading(line, wrote_tag());
    match find_from(rest, paren_tag(), 0) {
        Some(i) => rest.take(i),
        None => rest,
    }
}

/// The file a build's report line says it wrote, as `--watch` copies it.
pub fn built_path(line: &str) -> (r: String)
    ensures
        r@ == built_path_of(line@),
{
    let mut cs = chars_of(line);
    let tag: Vec<char> = vec!['w', 'r', 'o', 't', 'e', ' '];
    assert(tag@ =~= wrote_tag());
    while starts_with(&cs, &tag)
        invariant
            tag@ == wrote_tag(),
            strip_leading(cs@, wrote_tag()) == strip_leading(line@, wrote_tag()),
        decreases cs.len(),
    {
        cs = skip_chars(&cs, 6);
    }
    let paren: Vec<char> = vec![' ', '('];
    assert(paren@ =~= paren_tag());
    match find_chars(&cs, &paren, 0) {
        Some(i) => {
            proof {
                lemma_find_from(cs@, paren@, 0);
            }
            string_of(&take_chars(&cs, i))
        },
        None => string_of(&cs),
    }
}

/// A line of a build's report that `--watch` passes on: what it wrote,
/// fixed or cleaned.
pub fn watch_echoes(line: &str) -> (r: bool)
    ensures
        r == (begins(line@, "wrote"@) || begins(line@, "fixed"@) || begins(line@, "clean"@)),
{
    let cs = chars_of(line);
    starts_with(&cs, &chars_of("wrote")) || starts_with(&cs, &chars_of("fixed")) || starts_with(
        &cs,
        &chars_of("clean"),
    )
}

/// The info block of a dupe file: its name, when it was made, the size of
/// its body, and AdvDupe2's line-ending check, in the order AdvDupe2 writes
/// them.
pub fn dupe_info(name: &str, date: &str, size: &str) -> (r: Vec<(String, String)>)
    ensures
        r.len() == 6,
        r@[0].0@ == "name"@ && r@[0].1@ == name@,
        r@[1].0@ == "date"@ && r@[1].1@ == date@,
        r@[2].0@ == "time"@ && r@[2].1@ == ""@,
        r@[3].0@ == "timezone"@ && r@[3].1@ == ""@,
        r@[4].0@ == "size"@ && r@[4].1@ == size@,
        r@[5].0@ == "check"@ && r@[5].1@ == "\r\n\t\n"@,
{
    let mut r: Vec<(String, String)> = Vec::new();
    r.push((String::from_str("name"), String::from_str(name)));
    r.push((String::from_str("date"), String::from_str(date)));
    r.push((String::from_str("time"), String::from_str("")));
    r.push((String::from_str("timezone"), String::from_str("")));
    r.push((String::from_str("size"), String::from_str(size)));
    r.push((String::from_str("check"), String::from_str("\r\n\t\n")));
    r
}

} // verus!
