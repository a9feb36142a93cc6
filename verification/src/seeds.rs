//! The seed lists of the map tab: reading seeds from a text file, the range
//! of a search, and the rows shown for its results.
use vstd::prelude::*;
use crate::textops::{back_ws, chars_of, is_ws, is_ws_exec, lines, lines_exec, slice_chars, views};
use crate::utils::{collision_string, find_chinese_collision};

verus! {

broadcast use vstd::string::group_string_axioms;

/// Where the token that ends at `e` starts: the position after the last
/// whitespace before `e`.
pub open spec fn token_start(l: Seq<char>, e: nat) -> nat
    decreases e,
{
    if e > 0 && e <= l.len() && !is_ws(l[e - 1]) {
        token_start(l, (e - 1) as nat)
    } else {
        e
    }
}

/// `split_whitespace().next_back()`: the last whitespace-separated token of
/// a line, if it has one.
pub open spec fn last_token(l: Seq<char>) -> Option<Seq<char>> {
    let e = back_ws(l, l.len(), 0);
    if e == 0 {
        None
    } else {
        Some(l.subrange(token_start(l, e) as int, e as int))
    }
}

/// Whether every character is an ASCII digit.
pub open spec fn all_digits(s: Seq<char>) -> bool {
    forall|i: int| 0 <= i < s.len() ==> '0' <= #[trigger] s[i] && s[i] <= '9'
}

/// The number that a string of decimal digits spells.
pub open spec fn digits_value(s: Seq<char>) -> int
    decreases s.len(),
{
    if s.len() == 0 {
        0
    } else {
        digits_value(s.drop_last()) * 10 + (s.last() as int - '0' as int)
    }
}

/// A number without its sign: what follows a leading `+` or `-`.
pub open spec fn unsigned_part(s: Seq<char>) -> Seq<char> {
    if s.len() > 0 && (s[0] == '-' || s[0] == '+') {
        s.drop_first()
    } else {
        s
    }
}

/// `str::parse::<i32>`: an optional `+` or `-`, then at least one decimal
/// digit and nothing else, of a value that fits in an `i32`.
pub open spec fn parse_i32(s: Seq<char>) -> Option<i32> {
    let body = unsigned_part(s);
    let v = if s.len() > 0 && s[0] == '-' {
        -digits_value(body)
    } else {
        digits_value(body)
    };
    if body.len() == 0 || !all_digits(body) || v < i32::MIN || v > i32::MAX {
        None
    } else {
        Some(v as i32)
    }
}

/// The seed of one line: its last token, if that parses as an `i32`.
pub open spec fn line_seed(l: Seq<char>) -> Option<i32> {
    match last_token(l) {
        Some(t) => parse_i32(t),
        None => None,
    }
}

/// The seeds of a list of lines: of each line whose last token is a number,
/// that number.
pub open spec fn seeds_of(ls: Seq<Seq<char>>) -> Seq<i32>
    decreases ls.len(),
{
    if ls.len() == 0 {
        Seq::empty()
    } else {
        let prev = seeds_of(ls.drop_last());
        match line_seed(ls.last()) {
            Some(v) => prev.push(v),
            None => prev,
        }
    }
}

/// A longer string of digits spells at least as much as its prefix.
proof fn lemma_digits_grow(s: Seq<char>, k: int)
    requires
        all_digits(s),
        0 <= k <= s.len(),
    ensures
        digits_value(s) >= digits_value(s.take(k)),
        digits_value(s.take(k)) >= 0,
    decreases s.len(),
{
    if s.len() > 0 {
        if k == s.len() {
            assert(s.take(k) =~= s);
            lemma_digits_grow(s.drop_last(), k - 1);
            assert(s.drop_last().take(k - 1) =~= s.drop_last());
        } else {
            assert(s.take(k) =~= s.drop_last().take(k));
            lemma_digits_grow(s.drop_last(), k);
        }
    }
}

/// The number of a string of digits, or `None` when it does not fit in
/// `0..=2^31`.
fn digits_exec(s: &Vec<char>, lo: usize) -> (r: Option<i64>)
    requires
        lo <= s.len(),
        all_digits(s@.subrange(lo as int, s.len() as int)),
    ensures
        match r {
            Some(v) => v == digits_value(s@.subrange(lo as int, s.len() as int)) && 0 <= v <= 0x8000_0000,
            None => digits_value(s@.subrange(lo as int, s.len() as int)) > 0x8000_0000,
        },
{
    let ghost body = s@.subrange(lo as int, s.len() as int);
    let mut acc: i64 = 0;
    let mut i: usize = lo;
    assert(body.take(0) =~= Seq::<char>::empty());
    while i < s.len()
        invariant
            lo <= i <= s.len(),
            body == s@.subrange(lo as int, s.len() as int),
            all_digits(body),
            acc == digits_value(body.take(i - lo)),
            0 <= acc <= 0x8000_0000,
        decreases s.len() - i,
    {
        let c = s[i];
        assert(body[i - lo] == c);
        assert(body.take(i - lo + 1).drop_last() =~= body.take(i - lo));
        let d = (c as u32 - '0' as u32) as i64;
        acc = acc * 10 + d;
        i = i + 1;
        if acc > 0x8000_0000 {
            proof {
                lemma_digits_grow(body, i - lo);
            }
            return None;
        }
    }
    assert(body.take(s.len() - lo) =~= body);
    Some(acc)
}

/// The number that `s[lo..hi]` parses to as an `i32` (see `parse_i32`).
fn parse_i32_exec(s: &Vec<char>) -> (r: Option<i32>)
    ensures
        r == parse_i32(s@),
{
    if s.len() == 0 {
        return None;
    }
    let neg = s[0] == '-';
    let lo: usize = if s[0] == '-' || s[0] == '+' {
        1
    } else {
        0
    };
    let ghost body = unsigned_part(s@);
    assert(body =~= s@.subrange(lo as int, s.len() as int));
    if lo == s.len() {
        return None;
    }
    let mut i: usize = lo;
    while i < s.len()
        invariant
            lo <= i <= s.len(),
            body == s@.subrange(lo as int, s.len() as int),
            body == unsigned_part(s@),
            forall|k: int| lo <= k < i ==> '0' <= #[trigger] s@[k] && s@[k] <= '9',
        decreases s.len() - i,
    {
        if !('0' <= s[i] && s[i] <= '9') {
            assert(body[i - lo] == s@[i as int]);
            assert(!all_digits(body));
            assert(parse_i32(s@) is None);
            return None;
        }
        i = i + 1;
    }
    assert(all_digits(body)) by {
        assert forall|k: int| 0 <= k < body.len() implies '0' <= #[trigger] body[k] && body[k] <= '9' by {
            assert(body[k] == s@[lo + k]);
        }
    }
    match digits_exec(s, lo) {
        None => None,
        Some(v) => {
            if neg {
                Some((-v) as i32)
            } else if v <= 0x7fff_ffff {
                Some(v as i32)
            } else {
                None
            }
        },
    }
}

/// The last whitespace-separated token of a line.
fn last_token_exec(l: &Vec<char>) -> (r: Option<Vec<char>>)
    ensures
        match r {
            Some(t) => last_token(l@) == Some(t@),
            None => last_token(l@) is None,
        },
{
    let mut e: usize = l.len();
    while e > 0 && is_ws_exec(l[e - 1])
        invariant
            e <= l.len(),
            back_ws(l@, e as nat, 0) == back_ws(l@, l.len() as nat, 0),
        decreases e,
    {
        e = e - 1;
    }
    if e == 0 {
        return None;
    }
    let mut b: usize = e;
    while b > 0 && !is_ws_exec(l[b - 1])
        invariant
            b <= e <= l.len(),
            e == back_ws(l@, l.len() as nat, 0),
            token_start(l@, b as nat) == token_start(l@, e as nat),
        decreases b,
    {
        b = b - 1;
    }
    Some(slice_chars(l, b, e))
}

fn line_seed_exec(l: &Vec<char>) -> (r: Option<i32>)
    ensures
        r == line_seed(l@),
{
    match last_token_exec(l) {
        Some(t) => parse_i32_exec(&t),
        None => None,
    }
}

/// The seeds in a text: of each line whose last whitespace-separated token
/// parses as an `i32`, that number, in order.
pub fn parse_seed_list(content: &str) -> (r: Vec<i32>)
    ensures
        r@ == seeds_of(lines(content@)),
{
    let cs = chars_of(content);
    let ls = lines_exec(&cs);
    let mut r: Vec<i32> = Vec::new();
    let mut i: usize = 0;
    assert(views(ls@).take(0) =~= Seq::<Seq<char>>::empty());
    while i < ls.len()
        invariant
            i <= ls.len(),
            views(ls@) == lines(content@),
            r@ == seeds_of(views(ls@).take(i as int)),
        decreases ls.len() - i,
    {
        proof {
            assert(views(ls@).take(i + 1).drop_last() =~= views(ls@).take(i as int));
            assert(views(ls@).take(i + 1).last() == ls@[i as int]@);
        }
        match line_seed_exec(&ls[i]) {
            Some(v) => r.push(v),
            None => {},
        }
        i = i + 1;
    }
    assert(views(ls@).take(ls.len() as int) =~= views(ls@));
    r
}

/// The seeds from `start` to `end` in order, whichever way round they were
/// given, and how many steps the search reports: the count of seeds, at
/// most `i32::MAX`.
pub fn search_bounds(start: i32, end: i32) -> (r: (i32, i32, usize))
    ensures
        r.0 == (if start <= end { start } else { end }),
        r.1 == (if start <= end { end } else { start }),
        r.2 == (if r.1 - r.0 + 1 < 0x7fff_ffff { r.1 - r.0 + 1 } else { 0x7fff_ffff }),
{
    let (s, e) = if start > end {
        (end, start)
    } else {
        (start, end)
    };
    let d: i64 = e as i64 - s as i64 + 1;
    let total: usize = if d < 0x7fff_ffff {
        d as usize
    } else {
        0x7fff_ffff
    };
    (s, e, total)
}

/// The text shown beside a seed: a string that hashes to it, or "无解"
/// when there is none.
pub open spec fn seed_label(s: i32) -> Seq<char> {
    collision_string(s)
}

/// The rows shown for the results of a search: at most the first 50 when
/// `top50`, each with its text seed.
pub fn label_results(r: &Vec<(i32, usize)>, top50: bool) -> (out: Vec<(i32, usize, String)>)
    ensures
        out.len() == (if top50 && r.len() > 50 { 50 } else { r.len() as int }),
        forall|i: int|
            0 <= i < out.len() ==> {
                &&& (#[trigger] out@[i]).0 == r@[i].0
                &&& out@[i].1 == r@[i].1
                &&& out@[i].2@ == seed_label(r@[i].0)
            },
{
    let n = if top50 && r.len() > 50 {
        50
    } else {
        r.len()
    };
    let mut out: Vec<(i32, usize, String)> = Vec::new();
    let mut i: usize = 0;
    while i < n
        invariant
            i <= n,
            n <= r.len(),
            out.len() == i,
            forall|k: int|
                0 <= k < i ==> {
                    &&& (#[trigger] out@[k]).0 == r@[k].0
                    &&& out@[k].1 == r@[k].1
                    &&& out@[k].2@ == seed_label(r@[k].0)
                },
        decreases n - i,
    {
        let (sd, ct) = r[i];
        let label = match find_chinese_collision(sd) {
            Some(t) => t,
            None => {
                let mut t = String::new();
                crate::text::push_str(&mut t, "无解");
                t
            },
        };
        out.push((sd, ct, label));
        i = i + 1;
    }
    out
}

} // verus!
