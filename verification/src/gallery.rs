//! What the gallery shows of the dupes it knows: file sizes as people read
//! them, titles, and the dupes opened most recently.

use vstd::prelude::*;

use crate::naming::{file_stem, file_stem_of};
use crate::text::{dec, decimal, digit, push_char, trim, trimmed};

verus! {

/// 2 to the power `k`.
pub open spec fn pow2(k: nat) -> nat
    decreases k,
{
    if k == 0 {
        1
    } else {
        2 * pow2((k - 1) as nat)
    }
}

/// The number of significand bits of an `f64`.
pub open spec fn significand() -> nat {
    0x20_0000_0000_0000
}

/// The spacing of the `f64` values around `b`, as a power of two: the
/// smallest `k` from `from` on with `b / 2^k` below 2^53.
pub open spec fn spacing_from(b: nat, k: nat) -> nat
    decreases 64 - k,
{
    if k >= 64 || b / pow2(k) < significand() {
        k
    } else {
        spacing_from(b, k + 1)
    }
}

/// `b` rounded to a multiple of `g`, to the nearest, ties to the even
/// multiple.
pub open spec fn round_even(b: nat, g: nat) -> nat
    recommends
        g > 0,
{
    let q = b / g;
    let r = b % g;
    if 2 * r > g || (2 * r == g && q % 2 == 1) {
        (q + 1) * g
    } else {
        q * g
    }
}

/// The value of `b as f64`: the nearest `f64`, ties to the even one.
pub open spec fn as_double(b: nat) -> nat {
    round_even(b, pow2(spacing_from(b, 0)))
}

/// The tenths of a megabyte that `{:.1}` shows for `b` bytes.
pub open spec fn mb_tenths(b: nat) -> nat {
    round_even(as_double(b) * 10, pow2(20)) / pow2(20)
}

/// " MB"
pub open spec fn mb_suffix() -> Seq<char> {
    seq![' ', 'M', 'B']
}

/// " KB"
pub open spec fn kb_suffix() -> Seq<char> {
    seq![' ', 'K', 'B']
}

/// A file size as the gallery shows it: megabytes to one decimal from a
/// megabyte up, else whole kilobytes rounded up.
pub open spec fn size_text(b: nat) -> Seq<char> {
    if b >= 1_048_576 {
        dec(mb_tenths(b) / 10) + seq!['.', digit(mb_tenths(b) % 10)] + mb_suffix()
    } else {
        dec((b + 1023) / 1024) + kb_suffix()
    }
}

proof fn lemma_pow2_grows(k: nat)
    ensures
        pow2(k + 1) == 2 * pow2(k),
        pow2(k) >= 1,
    decreases k,
{
    if k > 0 {
        lemma_pow2_grows((k - 1) as nat);
    }
}

/// `b as f64` computed on integers, as a multiple of its spacing.
fn double_value(b: u64) -> (r: u128)
    ensures
        r == as_double(b as nat),
        r <= b + 2048,
{
    let mut g: u64 = 1;
    let ghost mut k: nat = 0;
    proof {
        reveal_with_fuel(pow2, 12);
    }
    while b / g >= 0x20_0000_0000_0000
        invariant
            g == pow2(k),
            1 <= g <= 2048,
            k <= 11,
            spacing_from(b as nat, 0) == spacing_from(b as nat, k),
        decreases 2048 - g,
    {
        assert(g < 2048) by (nonlinear_arith)
            requires
                b / g >= 0x20_0000_0000_0000,
                b < 0x1_0000_0000_0000_0000u128,
                g >= 1,
        {
            assert(b / g * g <= b);
        }
        proof {
            reveal_with_fuel(pow2, 12);
            lemma_pow2_grows(k);
            assert(spacing_from(b as nat, k) == spacing_from(b as nat, k + 1));
            k = k + 1;
        }
        g = g * 2;
    }
    let q = b / g;
    let rem = b % g;
    assert(q * g + rem == b) by (nonlinear_arith)
        requires
            q == b / g,
            rem == b % g,
            g >= 1,
    {
    }
    assert((q as u128 + 1) * (g as u128) <= 0x2_0000_0000_0000_0000u128) by (nonlinear_arith)
        requires
            q * g + rem == b,
            b < 0x1_0000_0000_0000_0000u128,
            rem >= 0,
            1 <= g <= 2048,
    {
    }
    assert((q as u128 + 1) * (g as u128) <= b + 2048) by (nonlinear_arith)
        requires
            q * g + rem == b,
            rem >= 0,
            1 <= g <= 2048,
    {
    }
    assert((q as u128) * (g as u128) <= b) by (nonlinear_arith)
        requires
            q * g + rem == b,
            rem >= 0,
    {
    }
    let up = 2 * (rem as u128) > g as u128 || (2 * (rem as u128) == g as u128 && q % 2 == 1);
    if up {
        (q as u128 + 1) * (g as u128)
    } else {
        (q as u128) * (g as u128)
    }
}

/// The tenths of a megabyte `{:.1}` shows for the value `d` bytes.
fn tenths_of_mb(d: u128) -> (r: u64)
    requires
        d <= 0x1_0000_0000_0000_0800u128,
    ensures
        r == round_even(d as nat * 10, pow2(20)) / pow2(20),
{
    proof {
        reveal_with_fuel(pow2, 21);
    }
    let g: u128 = 1_048_576;
    let t: u128 = d * 10;
    let q = t / g;
    let rem = t % g;
    assert(q * g + rem == t) by (nonlinear_arith)
        requires
            q == t / g,
            rem == t % g,
            g >= 1,
    {
    }
    assert(q <= 0x10_0000_0000_0000) by (nonlinear_arith)
        requires
            q * g + rem == t,
            rem >= 0,
            g == 1_048_576,
            t <= 0xA0_0000_0000_0000_5000u128,
    {
    }
    let up = 2 * rem > g || (2 * rem == g && q % 2 == 1);
    if up {
        assert((q + 1) * g / (g as int) == q + 1) by (nonlinear_arith)
            requires
                g >= 1,
        {
        }
        (q + 1) as u64
    } else {
        assert(q * g / (g as int) == q) by (nonlinear_arith)
            requires
                g >= 1,
        {
        }
        q as u64
    }
}

/// A file size as the gallery shows it: "2.3 MB" from a megabyte up, else
/// whole kilobytes rounded up, "14 KB".
pub fn readable_size(bytes: u64) -> (r: String)
    ensures
        r@ == size_text(bytes as nat),
{
    if bytes >= 1_048_576 {
        let d = double_value(bytes);
        let tenths = tenths_of_mb(d);
        let mut s = decimal((tenths / 10) as u128);
        push_char(&mut s, '.');
        let last: u8 = (tenths % 10) as u8 + 48;
        push_char(&mut s, last as char);
        push_char(&mut s, ' ');
        push_char(&mut s, 'M');
        push_char(&mut s, 'B');
        assert(s@ =~= size_text(bytes as nat));
        s
    } else {
        let mut s = decimal(((bytes + 1023) / 1024) as u128);
        push_char(&mut s, ' ');
        push_char(&mut s, 'K');
        push_char(&mut s, 'B');
        assert(s@ =~= size_text(bytes as nat));
        s
    }
}

/// Dupe `a` comes before dupe `b` in the recent list: opened later, or
/// opened at the same time and earlier in the index.
pub open spec fn opened_before(opened: Seq<u64>, a: int, b: int) -> bool {
    opened[a] > opened[b] || (opened[a] == opened[b] && a < b)
}

/// `order` lists the dupes of the index that were ever opened, each once,
/// most recently opened first, ties in index order.
pub open spec fn is_recent_order(opened: Seq<u64>, order: Seq<usize>) -> bool {
    &&& forall|k: int| 0 <= k < order.len() ==> (#[trigger] order[k]) < opened.len() && opened[order[k] as int] > 0
    &&& forall|i: int| 0 <= i < opened.len() && opened[i] > 0 ==> exists|k: int|
        0 <= k < order.len() && order[k] == i
    &&& forall|a: int, b: int|
        0 <= a < b < order.len() ==> opened_before(opened, order[a] as int, order[b] as int)
}

/// Where dupe `i` goes among the sorted `order`: before the first one
/// opened earlier than it.
fn slot_for(opened: &Vec<u64>, order: &Vec<usize>, i: usize) -> (p: usize)
    requires
        i < opened.len(),
        forall|k: int| 0 <= k < order.len() ==> (#[trigger] order@[k]) < opened.len(),
    ensures
        p <= order.len(),
        forall|k: int| 0 <= k < p ==> opened@[(#[trigger] order@[k]) as int] >= opened@[i as int],
        p < order.len() ==> opened@[order@[p as int] as int] < opened@[i as int],
{
    let mut p: usize = 0;
    while p < order.len()
        invariant
            p <= order.len(),
            i < opened.len(),
            forall|k: int| 0 <= k < order.len() ==> (#[trigger] order@[k]) < opened.len(),
            forall|k: int| 0 <= k < p ==> opened@[(#[trigger] order@[k]) as int] >= opened@[i as int],
        decreases order.len() - p,
    {
        if opened[order[p]] < opened[i] {
            return p;
        }
        p = p + 1;
    }
    p
}

/// The dupes ever opened, most recently opened first, as places in the
/// index `opened` gives the opening times of (0 for never). Ties keep index
/// order.
pub fn recent_order(opened: &Vec<u64>) -> (r: Vec<usize>)
    ensures
        is_recent_order(opened@, r@),
{
    let mut order: Vec<usize> = Vec::new();
    let mut i: usize = 0;
    while i < opened.len()
        invariant
            i <= opened.len(),
            forall|k: int| 0 <= k < order.len() ==> (#[trigger] order@[k]) < i && opened@[order@[k] as int] > 0,
            forall|j: int| 0 <= j < i && opened@[j] > 0 ==> exists|k: int|
                0 <= k < order.len() && order@[k] == j,
            forall|a: int, b: int|
                0 <= a < b < order.len() ==> opened_before(opened@, order@[a] as int, order@[b] as int),
        decreases opened.len() - i,
    {
        if opened[i] > 0 {
            let p = slot_for(opened, &order, i);
            let ghost old_order = order@;
            order.insert(p, i);
            proof {
                assert forall|k: int| 0 <= k < order.len() implies (#[trigger] order@[k]) < i + 1
                    && opened@[order@[k] as int] > 0 by {
                    if k < p {
                        assert(order@[k] == old_order[k]);
                    } else if k > p {
                        assert(order@[k] == old_order[k - 1]);
                    }
                }
                assert forall|j: int| 0 <= j < i + 1 && opened@[j] > 0 implies exists|k: int|
                    0 <= k < order.len() && order@[k] == j by {
                    if j < i {
                        let k = choose|k: int| 0 <= k < old_order.len() && old_order[k] == j;
                        if k < p {
                            assert(order@[k] == j);
                        } else {
                            assert(order@[k + 1] == j);
                        }
                    } else {
                        assert(order@[p as int] == j);
                    }
                }
                assert forall|a: int, b: int| 0 <= a < b < order.len() implies opened_before(
                    opened@,
                    order@[a] as int,
                    order@[b] as int,
                ) by {
                    if b < p {
                        assert(order@[a] == old_order[a] && order@[b] == old_order[b]);
                    } else if a > p {
                        assert(order@[a] == old_order[a - 1] && order@[b] == old_order[b - 1]);
                    } else if a == p {
                        assert(order@[b] == old_order[b - 1]);
                        if b - 1 > p {
                            assert(opened_before(opened@, old_order[p as int] as int, old_order[b - 1] as int));
                        }
                    } else if b == p {
                        assert(order@[a] == old_order[a]);
                    } else {
                        assert(order@[a] == old_order[a] && order@[b] == old_order[b - 1]);
                        assert(a < p && p <= b - 1);
                    }
                }
            }
        }
        i = i + 1;
    }
    order
}

/// The dupes the File menu offers as recent, as places in the index:
/// `opened` gives each dupe's opening time (0 for never) and `exists`
/// whether its file is still there. At most `count`, each opened and still
/// there, most recently opened first, ties in index order; and none left
/// out that was opened later than the last one listed, or at all when
/// fewer than `count` are listed.
pub fn recent(opened: &Vec<u64>, exists: &Vec<bool>, count: usize) -> (r: Vec<usize>)
    requires
        exists.len() == opened.len(),
    ensures
        r.len() <= count,
        forall|k: int|
            0 <= k < r.len() ==> (#[trigger] r@[k]) < opened.len() && opened@[r@[k] as int] > 0
                && exists@[r@[k] as int],
        forall|a: int, b: int|
            0 <= a < b < r.len() ==> opened_before(opened@, r@[a] as int, r@[b] as int),
        forall|i: int|
            0 <= i < opened.len() && opened@[i] > 0 && exists@[i] && (r.len() < count || (r.len()
                > 0 && opened_before(opened@, i, r@[r.len() - 1] as int))) ==> exists|k: int|
                0 <= k < r.len() && r@[k] == i,
{
    let order = recent_order(opened);
    let mut r: Vec<usize> = Vec::new();
    let ghost mut pos: Seq<int> = Seq::empty();
    let mut j: usize = 0;
    while j < order.len() && r.len() < count
        invariant
            is_recent_order(opened@, order@),
            exists.len() == opened.len(),
            j <= order.len(),
            r.len() <= count,
            pos.len() == r.len(),
            forall|k: int| 0 <= k < r.len() ==> 0 <= #[trigger] pos[k] < j && r@[k] == order@[pos[k]]
                && exists@[r@[k] as int],
            forall|a: int, b: int| 0 <= a < b < r.len() ==> pos[a] < pos[b],
            forall|p: int| 0 <= p < j && exists@[order@[p] as int] ==> exists|k: int|
                0 <= k < r.len() && pos[k] == p,
        decreases order.len() - j,
    {
        let ghost old_pos = pos;
        if exists[order[j]] {
            r.push(order[j]);
            proof {
                pos = pos.push(j as int);
            }
        }
        proof {
            assert forall|p: int| 0 <= p < j + 1 && exists@[order@[p] as int] implies exists|k: int|
                0 <= k < r.len() && pos[k] == p by {
                if p < j {
                    let k = choose|k: int| 0 <= k < old_pos.len() && old_pos[k] == p;
                    assert(pos[k] == p);
                } else {
                    assert(pos[pos.len() - 1] == p);
                }
            }
        }
        j = j + 1;
    }
    proof {
        assert forall|k: int| 0 <= k < r.len() implies (#[trigger] r@[k]) < opened.len() && opened@[r@[k] as int] > 0
            && exists@[r@[k] as int] by {
            assert(order@[pos[k]] == r@[k]);
        }
        assert forall|a: int, b: int| 0 <= a < b < r.len() implies opened_before(
            opened@,
            r@[a] as int,
            r@[b] as int,
        ) by {
            assert(pos[a] < pos[b]);
        }
        assert forall|i: int|
            0 <= i < opened.len() && opened@[i] > 0 && exists@[i] && (r.len() < count || (r.len() > 0
                && opened_before(opened@, i, r@[r.len() - 1] as int))) implies exists|k: int|
            0 <= k < r.len() && r@[k] == i by {
            let p = choose|p: int| 0 <= p < order.len() && order@[p] == i;
            if r.len() < count {
                assert(j == order.len());
                let k = choose|k: int| 0 <= k < r.len() && pos[k] == p;
                assert(r@[k] == i);
            } else {
                let last = r.len() - 1;
                let pl = pos[last];
                if p >= pl {
                    if p > pl {
                        assert(opened_before(opened@, order@[pl] as int, order@[p] as int));
                    }
                    assert(false);
                }
                let k = choose|k: int| 0 <= k < r.len() && pos[k] == p;
                assert(r@[k] == i);
            }
        }
    }
    r
}

/// The title a dupe is shown by.
pub open spec fn shown_of(title: Seq<char>, stem: Seq<char>) -> Seq<char> {
    if title.len() == 0 {
        stem
    } else {
        title
    }
}

/// The title a dupe is shown by: its own when it has one, else the file
/// name without its extension.
pub fn shown_title(title: &String, stem: &String) -> (r: String)
    ensures
        r@ == shown_of(title@, stem@),
{
    if title.unicode_len() == 0 {
        stem.clone()
    } else {
        title.clone()
    }
}

/// The title a dupe keeps from the rename box: the text trimmed, or no
/// title of its own when that is just the file's name.
pub fn kept_title(text: &str, stem: &String) -> (r: String)
    ensures
        r@ == if trimmed(text@) == stem@ { Seq::<char>::empty() } else { trimmed(text@) },
{
    let t = trim(text);
    if t == *stem {
        String::new()
    } else {
        t
    }
}

/// The label of a recent dupe: its title, or else the stem of its file
/// name (nothing, when the path names no file).
pub fn recent_label(title: &String, path: &str) -> (r: String)
    ensures
        r@ == shown_of(
            title@,
            match file_stem_of(path@) {
                Some(stem) => stem,
                None => Seq::<char>::empty(),
            },
        ),
{
    let stem = match file_stem(path) {
        Some(stem) => stem,
        None => String::new(),
    };
    shown_title(title, &stem)
}

/// The title kept for a dupe is what the gallery then shows it by: the
/// text typed, trimmed, or the file's name when nothing was typed.
pub proof fn lemma_renamed_title_shown(text: Seq<char>, stem: Seq<char>)
    ensures
        ({
            let kept = if trimmed(text) == stem { Seq::<char>::empty() } else { trimmed(text) };
            shown_of(kept, stem) == if trimmed(text).len() == 0 { stem } else { trimmed(text) }
        }),
{
}

/// The note a dupe keeps from the note box: the text trimmed.
pub fn kept_note(text: &str) -> (r: String)
    ensures
        r@ == trimmed(text@),
{
    trim(text)
}

} // verus!
