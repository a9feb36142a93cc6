//! Searching, splitting and trimming of character sequences, with the
//! meaning that Rust's `str` methods of the same names give them.
use vstd::prelude::*;
use crate::text::push_char;

verus! {

broadcast use vstd::string::group_string_axioms;

/// Whether `pat` occurs in `s` at position `i`.
pub open spec fn matches_at(s: Seq<char>, pat: Seq<char>, i: int) -> bool {
    0 <= i && i + pat.len() <= s.len() && s.subrange(i, i + pat.len()) == pat
}

/// The first position at or after `i` where `pat` occurs.
pub open spec fn find_from(s: Seq<char>, pat: Seq<char>, i: nat) -> Option<nat>
    decreases s.len() + 1 - i,
{
    if i + pat.len() > s.len() {
        None
    } else if matches_at(s, pat, i as int) {
        Some(i)
    } else {
        find_from(s, pat, i + 1)
    }
}

/// `str::find`: the first position where `pat` occurs.
pub open spec fn find(s: Seq<char>, pat: Seq<char>) -> Option<nat> {
    find_from(s, pat, 0)
}

/// `str::contains`.
pub open spec fn contains(s: Seq<char>, pat: Seq<char>) -> bool {
    find(s, pat) is Some
}

/// `str::split_once`: the parts before and after the first occurrence.
pub open spec fn split_once(s: Seq<char>, pat: Seq<char>) -> Option<(Seq<char>, Seq<char>)> {
    match find(s, pat) {
        Some(i) => Some((s.subrange(0, i as int), s.subrange((i + pat.len()) as int, s.len() as int))),
        None => None,
    }
}

/// `str::ends_with`.
pub open spec fn ends_with(s: Seq<char>, suffix: Seq<char>) -> bool {
    suffix.len() <= s.len() && s.subrange(s.len() - suffix.len(), s.len() as int) == suffix
}

/// `str::split` with a nonempty pattern: the parts between occurrences.
pub open spec fn split(s: Seq<char>, pat: Seq<char>) -> Seq<Seq<char>>
    decreases s.len(),
{
    if pat.len() == 0 {
        seq![s]
    } else {
        match find(s, pat) {
            Some(i) => {
                proof {
                    lemma_find_from_bounds(s, pat, 0);
                }
                seq![s.subrange(0, i as int)] + split(
                    s.subrange((i + pat.len()) as int, s.len() as int),
                    pat,
                )
            },
            None => seq![s],
        }
    }
}

/// `char::is_whitespace`: the Unicode `White_Space` property.
pub open spec fn is_ws(c: char) -> bool {
    let v = c as u32;
    (0x9 <= v && v <= 0xD) || v == 0x20 || v == 0x85 || v == 0xA0 || v == 0x1680 || (0x2000 <= v
        && v <= 0x200A) || v == 0x2028 || v == 0x2029 || v == 0x202F || v == 0x205F || v == 0x3000
}

/// The first position at or after `i` that is not whitespace (or the end).
pub open spec fn skip_ws(s: Seq<char>, i: nat) -> nat
    decreases s.len() - i,
{
    if i < s.len() && is_ws(s[i as int]) {
        skip_ws(s, i + 1)
    } else {
        i
    }
}

/// The end of `s[lo..j]` after its trailing whitespace is dropped.
pub open spec fn back_ws(s: Seq<char>, j: nat, lo: nat) -> nat
    decreases j,
{
    if j > lo && j <= s.len() && is_ws(s[j - 1]) {
        back_ws(s, (j - 1) as nat, lo)
    } else {
        j
    }
}

/// `str::trim`.
pub open spec fn trim(s: Seq<char>) -> Seq<char> {
    let a = skip_ws(s, 0);
    s.subrange(a as int, back_ws(s, s.len(), a) as int)
}

/// A line without the carriage return that ended it.
pub open spec fn strip_cr(s: Seq<char>) -> Seq<char> {
    if s.len() > 0 && s.last() == '\r' {
        s.drop_last()
    } else {
        s
    }
}

/// `str::lines`: split at `\n`, a `\r` before it dropped; a final line
/// ending adds no empty line.
pub open spec fn lines(s: Seq<char>) -> Seq<Seq<char>>
    decreases s.len(),
{
    if s.len() == 0 {
        Seq::empty()
    } else {
        match find(s, seq!['\n']) {
            Some(i) => {
                proof {
                    lemma_find_from_bounds(s, seq!['\n'], 0);
                }
                seq![strip_cr(s.subrange(0, i as int))] + lines(
                    s.subrange((i + 1) as int, s.len() as int),
                )
            },
            None => seq![s],
        }
    }
}

pub proof fn lemma_find_from_bounds(s: Seq<char>, pat: Seq<char>, i: nat)
    ensures
        find_from(s, pat, i) matches Some(k) ==> i <= k && k + pat.len() <= s.len() && matches_at(
            s,
            pat,
            k as int,
        ),
        forall|j: int|
            i <= j < (match find_from(s, pat, i) {
                Some(k) => k as int,
                None => s.len() as int,
            }) ==> !matches_at(s, pat, j),
    decreases s.len() + 1 - i,
{
    if i + pat.len() <= s.len() && !matches_at(s, pat, i as int) {
        lemma_find_from_bounds(s, pat, i + 1);
    }
}

/// The characters of a string.
pub fn chars_of(s: &str) -> (v: Vec<char>)
    ensures
        v@ == s@,
{
    let mut v: Vec<char> = Vec::new();
    for c in it: s.chars()
        invariant
            it.seq() == s@,
            v@ == s@.take(it.index() as int),
    {
        v.push(c);
        proof {
            assert(v@ =~= s@.take(it.index() as int + 1));
        }
    }
    assert(s@.take(s@.len() as int) =~= s@);
    v
}

/// A string of the given characters.
pub fn string_of(v: &Vec<char>) -> (s: String)
    ensures
        s@ == v@,
{
    let mut s = String::new();
    let mut i: usize = 0;
    while i < v.len()
        invariant
            i <= v.len(),
            s@ == v@.take(i as int),
        decreases v.len() - i,
    {
        push_char(&mut s, v[i]);
        i = i + 1;
        assert(s@ =~= v@.take(i as int));
    }
    assert(v@.take(v.len() as int) =~= v@);
    s
}

/// Characters `lo..hi` of `s`.
pub fn slice_chars(s: &Vec<char>, lo: usize, hi: usize) -> (r: Vec<char>)
    requires
        lo <= hi <= s.len(),
    ensures
        r@ == s@.subrange(lo as int, hi as int),
{
    let mut r: Vec<char> = Vec::new();
    let mut i: usize = lo;
    while i < hi
        invariant
            lo <= i <= hi,
            hi <= s.len(),
            r@ == s@.subrange(lo as int, i as int),
        decreases hi - i,
    {
        r.push(s[i]);
        i = i + 1;
        assert(r@ =~= s@.subrange(lo as int, i as int));
    }
    r
}

/// Whether `pat` occurs in `s` at position `i`.
pub fn matches_at_exec(s: &Vec<char>, pat: &Vec<char>, i: usize) -> (b: bool)
    ensures
        b == matches_at(s@, pat@, i as int),
{
    if i > s.len() || pat.len() > s.len() - i {
        return false;
    }
    let mut j: usize = 0;
    while j < pat.len()
        invariant
            j <= pat.len(),
            i + pat.len() <= s.len(),
            forall|k: int| 0 <= k < j ==> s@[i + k] == pat@[k],
        decreases pat.len() - j,
    {
        if s[i + j] != pat[j] {
            assert(s@.subrange(i as int, i + pat.len())[j as int] != pat@[j as int]);
            return false;
        }
        j = j + 1;
    }
    assert(s@.subrange(i as int, i + pat.len()) =~= pat@);
    true
}

/// The first position where `pat` occurs in `s`.
pub fn find_exec(s: &Vec<char>, pat: &Vec<char>) -> (r: Option<usize>)
    requires
        pat.len() > 0,
    ensures
        r matches Some(k) ==> find(s@, pat@) == Some(k as nat),
        r is None ==> find(s@, pat@) is None,
{
    let mut i: usize = 0;
    while i <= s.len() && pat.len() <= s.len() - i
        invariant
            i <= s.len(),
            pat.len() > 0,
            find_from(s@, pat@, i as nat) == find(s@, pat@),
        decreases s.len() + 1 - i,
    {
        if matches_at_exec(s, pat, i) {
            return Some(i);
        }
        i = i + 1;
    }
    None
}

/// The parts of `s` before and after the first occurrence of `pat`.
pub fn split_once_exec(s: &Vec<char>, pat: &Vec<char>) -> (r: Option<(Vec<char>, Vec<char>)>)
    requires
        pat.len() > 0,
    ensures
        r is Some == split_once(s@, pat@) is Some,
        r matches Some(p) ==> split_once(s@, pat@) == Some((p.0@, p.1@)),
{
    match find_exec(s, pat) {
        Some(i) => {
            proof {
                lemma_find_from_bounds(s@, pat@, 0);
                assert(find_from(s@, pat@, 0) == Some(i as nat));
                assert(i + pat.len() <= s.len());
            }
            Some((slice_chars(s, 0, i), slice_chars(s, i + pat.len(), s.len())))
        },
        None => None,
    }
}

/// Whether `pat` occurs in `s`.
pub fn contains_exec(s: &Vec<char>, pat: &Vec<char>) -> (b: bool)
    requires
        pat.len() > 0,
    ensures
        b == contains(s@, pat@),
{
    find_exec(s, pat).is_some()
}

/// Whether `s` ends with `suffix`.
pub fn ends_with_exec(s: &Vec<char>, suffix: &Vec<char>) -> (b: bool)
    ensures
        b == ends_with(s@, suffix@),
{
    if suffix.len() > s.len() {
        return false;
    }
    let r = matches_at_exec(s, suffix, s.len() - suffix.len());
    r
}

/// The parts of `s` between the occurrences of a nonempty `pat`.
pub fn split_exec(s: &Vec<char>, pat: &Vec<char>) -> (r: Vec<Vec<char>>)
    requires
        pat.len() > 0,
    ensures
        r@.map_values(|v: Vec<char>| v@) == split(s@, pat@),
{
    let mut r: Vec<Vec<char>> = Vec::new();
    let mut rest = slice_chars(s, 0, s.len());
    assert(rest@ =~= s@);
    loop
        invariant
            pat.len() > 0,
            r@.map_values(|v: Vec<char>| v@) + split(rest@, pat@) == split(s@, pat@),
        decreases rest.len(),
    {
        match split_once_exec(&rest, pat) {
            Some((before, after)) => {
                proof {
                    lemma_find_from_bounds(rest@, pat@, 0);
                    let ghost old_r = r@.map_values(|v: Vec<char>| v@);
                    assert(split(rest@, pat@) == seq![before@] + split(after@, pat@));
                }
                let ghost prev = r@;
                r.push(before);
                assert(r@.map_values(|v: Vec<char>| v@) =~= prev.map_values(|v: Vec<char>| v@).push(
                    r@[r.len() - 1]@,
                ));
                rest = after;
            },
            None => {
                let ghost prev = r@;
                assert(split(rest@, pat@) == seq![rest@]);
                r.push(rest);
                assert(r@.map_values(|v: Vec<char>| v@) =~= prev.map_values(|v: Vec<char>| v@).push(
                    r@[r.len() - 1]@,
                ));
                return r;
            },
        }
    }
}

pub fn is_ws_exec(c: char) -> (b: bool)
    ensures
        b == is_ws(c),
{
    let v = c as u32;
    (0x9 <= v && v <= 0xD) || v == 0x20 || v == 0x85 || v == 0xA0 || v == 0x1680 || (0x2000 <= v
        && v <= 0x200A) || v == 0x2028 || v == 0x2029 || v == 0x202F || v == 0x205F || v == 0x3000
}

/// `s` without leading and trailing whitespace.
pub fn trim_exec(s: &Vec<char>) -> (r: Vec<char>)
    ensures
        r@ == trim(s@),
{
    let mut a: usize = 0;
    while a < s.len() && is_ws_exec(s[a])
        invariant
            a <= s.len(),
            skip_ws(s@, a as nat) == skip_ws(s@, 0),
        decreases s.len() - a,
    {
        a = a + 1;
    }
    let mut b: usize = s.len();
    while b > a && is_ws_exec(s[b - 1])
        invariant
            a <= b <= s.len(),
            a == skip_ws(s@, 0),
            back_ws(s@, b as nat, a as nat) == back_ws(s@, s.len() as nat, a as nat),
        decreases b,
    {
        b = b - 1;
    }
    slice_chars(s, a, b)
}

/// The first position at or after `i` holding `\r` or `\n`.
pub open spec fn find_eol(s: Seq<char>, i: nat) -> Option<nat>
    decreases s.len() - i,
{
    if i >= s.len() {
        None
    } else if s[i as int] == '\r' || s[i as int] == '\n' {
        Some(i)
    } else {
        find_eol(s, i + 1)
    }
}

pub proof fn lemma_find_eol_bounds(s: Seq<char>, i: nat)
    ensures
        find_eol(s, i) matches Some(k) ==> i <= k < s.len(),
    decreases s.len() - i,
{
    if i < s.len() && !(s[i as int] == '\r' || s[i as int] == '\n') {
        lemma_find_eol_bounds(s, i + 1);
    }
}

/// `str::split` at every `\r` and every `\n`.
pub open spec fn split_eol(s: Seq<char>) -> Seq<Seq<char>>
    decreases s.len(),
{
    match find_eol(s, 0) {
        Some(i) => {
            proof {
                lemma_find_eol_bounds(s, 0);
            }
            seq![s.subrange(0, i as int)] + split_eol(s.subrange((i + 1) as int, s.len() as int))
        },
        None => seq![s],
    }
}

/// The parts that are not blank, trimmed.
pub open spec fn nonblank_trimmed(parts: Seq<Seq<char>>) -> Seq<Seq<char>>
    decreases parts.len(),
{
    if parts.len() == 0 {
        Seq::empty()
    } else {
        let prev = nonblank_trimmed(parts.drop_last());
        if trim(parts.last()).len() > 0 {
            prev.push(trim(parts.last()))
        } else {
            prev
        }
    }
}

/// Views of a list of character vectors.
pub open spec fn views(v: Seq<Vec<char>>) -> Seq<Seq<char>> {
    v.map_values(|x: Vec<char>| x@)
}

/// The lines of `s` (see `lines`).
pub fn lines_exec(s: &Vec<char>) -> (r: Vec<Vec<char>>)
    ensures
        views(r@) == lines(s@),
{
    let nl: Vec<char> = vec!['\n'];
    assert(nl@ =~= seq!['\n']);
    let mut r: Vec<Vec<char>> = Vec::new();
    let mut rest = slice_chars(s, 0, s.len());
    assert(rest@ =~= s@);
    loop
        invariant
            nl@ == seq!['\n'],
            views(r@) + lines(rest@) == lines(s@),
        decreases rest.len(),
    {
        if rest.len() == 0 {
            assert(views(r@) + lines(rest@) =~= views(r@));
            return r;
        }
        match find_exec(&rest, &nl) {
            Some(i) => {
                proof {
                    lemma_find_from_bounds(rest@, nl@, 0);
                    assert(find_from(rest@, nl@, 0) == Some(i as nat));
                }
                let mut line = slice_chars(&rest, 0, i);
                if line.len() > 0 && line[line.len() - 1] == '\r' {
                    line.pop();
                    assert(line@ =~= strip_cr(rest@.subrange(0, i as int)));
                }
                let after = slice_chars(&rest, i + 1, rest.len());
                let ghost prev = r@;
                r.push(line);
                assert(views(r@) =~= views(prev).push(r@[r.len() - 1]@));
                assert(lines(rest@) == seq![strip_cr(rest@.subrange(0, i as int))] + lines(after@));
                rest = after;
            },
            None => {
                let ghost prev = r@;
                assert(lines(rest@) == seq![rest@]);
                r.push(rest);
                assert(views(r@) =~= views(prev).push(r@[r.len() - 1]@));
                return r;
            },
        }
    }
}

/// The parts of `s` between every `\r` and `\n` (see `split_eol`).
pub fn split_eol_exec(s: &Vec<char>) -> (r: Vec<Vec<char>>)
    ensures
        views(r@) == split_eol(s@),
{
    let mut r: Vec<Vec<char>> = Vec::new();
    let mut cur: Vec<char> = Vec::new();
    let mut i: usize = 0;
    assert(views(r@) =~= Seq::<Seq<char>>::empty());
    assert(cur@ + s@.subrange(0, s.len() as int) =~= s@);
    assert(views(r@) + split_eol(s@) =~= split_eol(s@));
    while i < s.len()
        invariant
            i <= s.len(),
            views(r@) + split_eol(cur@ + s@.subrange(i as int, s.len() as int)) == split_eol(s@),
            forall|k: int| 0 <= k < cur.len() ==> cur@[k] != '\r' && cur@[k] != '\n',
        decreases s.len() - i,
    {
        let c = s[i];
        let ghost tail = cur@ + s@.subrange(i as int, s.len() as int);
        proof {
            lemma_find_eol_prefix(cur@, s@.subrange(i as int, s.len() as int));
        }
        if c == '\r' || c == '\n' {
            proof {
                assert(tail[cur.len() as int] == c);
                assert(find_eol(tail, 0) == Some(cur.len() as nat));
                assert(tail.subrange(0, cur.len() as int) =~= cur@);
                assert(tail.subrange(cur.len() + 1, tail.len() as int) =~= Seq::<char>::empty() + s@.subrange(
                    i + 1,
                    s.len() as int,
                ));
            }
            let ghost prev = r@;
            r.push(cur);
            assert(views(r@) =~= views(prev).push(r@[r.len() - 1]@));
            cur = Vec::new();
        } else {
            cur.push(c);
            proof {
                assert(cur@ + s@.subrange(i + 1, s.len() as int) =~= tail);
            }
        }
        i = i + 1;
    }
    proof {
        assert(cur@ + s@.subrange(s.len() as int, s.len() as int) =~= cur@);
        lemma_find_eol_prefix(cur@, Seq::empty());
        assert(cur@ + Seq::<char>::empty() =~= cur@);
    }
    let ghost prev = r@;
    r.push(cur);
    assert(views(r@) =~= views(prev).push(r@[r.len() - 1]@));
    r
}

/// A prefix without line ends does not change where the first line end is.
proof fn lemma_find_eol_prefix(a: Seq<char>, b: Seq<char>)
    requires
        forall|k: int| 0 <= k < a.len() ==> a[k] != '\r' && a[k] != '\n',
    ensures
        find_eol(a + b, 0) == match find_eol(b, 0) {
            Some(k) => Some(k + a.len()),
            None => None,
        },
{
    lemma_find_eol_shift(a, b, 0);
}

proof fn lemma_find_eol_shift(a: Seq<char>, b: Seq<char>, i: nat)
    requires
        forall|k: int| 0 <= k < a.len() ==> a[k] != '\r' && a[k] != '\n',
        i <= a.len(),
    ensures
        find_eol(a + b, i) == match find_eol(b, 0) {
            Some(k) => Some(k + a.len()),
            None => None,
        },
    decreases a.len() + b.len() - i,
{
    if i < a.len() {
        assert((a + b)[i as int] == a[i as int]);
        lemma_find_eol_shift(a, b, i + 1);
    } else {
        lemma_find_eol_offset(a, b, 0);
    }
}

proof fn lemma_find_eol_offset(a: Seq<char>, b: Seq<char>, j: nat)
    ensures
        find_eol(a + b, a.len() + j) == match find_eol(b, j) {
            Some(k) => Some(k + a.len()),
            None => None,
        },
    decreases b.len() - j,
{
    if j < b.len() {
        assert((a + b)[(a.len() + j) as int] == b[j as int]);
        lemma_find_eol_offset(a, b, j + 1);
    }
}

/// The parts that are not blank, trimmed (see `nonblank_trimmed`).
pub fn nonblank_trimmed_exec(parts: &Vec<Vec<char>>) -> (r: Vec<Vec<char>>)
    ensures
        views(r@) == nonblank_trimmed(views(parts@)),
{
    let mut r: Vec<Vec<char>> = Vec::new();
    let mut i: usize = 0;
    while i < parts.len()
        invariant
            i <= parts.len(),
            views(r@) == nonblank_trimmed(views(parts@).take(i as int)),
        decreases parts.len() - i,
    {
        let t = trim_exec(&parts[i]);
        assert(views(parts@).take(i as int + 1).drop_last() =~= views(parts@).take(i as int));
        let ghost prev = r@;
        if t.len() > 0 {
            r.push(t);
            assert(views(r@) =~= views(prev).push(r@[r.len() - 1]@));
        }
        i = i + 1;
    }
    assert(views(parts@).take(parts.len() as int) =~= views(parts@));
    r
}

/// Whether two character vectors are equal.
pub fn eq_chars(a: &Vec<char>, b: &Vec<char>) -> (r: bool)
    ensures
        r == (a@ == b@),
{
    if a.len() != b.len() {
        return false;
    }
    let mut i: usize = 0;
    while i < a.len()
        invariant
            i <= a.len(),
            a.len() == b.len(),
            forall|k: int| 0 <= k < i ==> a@[k] == b@[k],
        decreases a.len() - i,
    {
        if a[i] != b[i] {
            return false;
        }
        i = i + 1;
    }
    assert(a@ =~= b@);
    true
}

} // verus!
