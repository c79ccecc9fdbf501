//! Character-level text operations: whitespace, trimming, searching and joining.

use vstd::prelude::*;

verus! {

/// The Unicode `White_Space` property, the notion of whitespace that string trimming uses.
pub open spec fn is_whitespace(c: char) -> bool {
    ||| ('\u{9}' <= c && c <= '\u{d}')
    ||| c == ' '
    ||| c == '\u{85}'
    ||| c == '\u{a0}'
    ||| c == '\u{1680}'
    ||| ('\u{2000}' <= c && c <= '\u{200a}')
    ||| c == '\u{2028}'
    ||| c == '\u{2029}'
    ||| c == '\u{202f}'
    ||| c == '\u{205f}'
    ||| c == '\u{3000}'
}

/// `s` with its leading whitespace removed.
pub open spec fn trim_start(s: Seq<char>) -> Seq<char>
    decreases s.len(),
{
    if s.len() > 0 && is_whitespace(s[0]) {
        trim_start(s.drop_first())
    } else {
        s
    }
}

/// `s` with its trailing whitespace removed.
pub open spec fn trim_end(s: Seq<char>) -> Seq<char>
    decreases s.len(),
{
    if s.len() > 0 && is_whitespace(s.last()) {
        trim_end(s.drop_last())
    } else {
        s
    }
}

/// `s` with leading and trailing whitespace removed.
pub open spec fn trim(s: Seq<char>) -> Seq<char> {
    trim_end(trim_start(s))
}

pub fn is_whitespace_char(c: char) -> (r: bool)
    ensures
        r == is_whitespace(c),
{
    ('\u{9}' <= c && c <= '\u{d}') || c == ' ' || c == '\u{85}' || c == '\u{a0}' || c == '\u{1680}'
        || ('\u{2000}' <= c && c <= '\u{200a}') || c == '\u{2028}' || c == '\u{2029}' || c
        == '\u{202f}' || c == '\u{205f}' || c == '\u{3000}'
}

/// The characters of `s`, in order.
pub fn chars_of(s: &str) -> (v: Vec<char>)
    ensures
        v@ == s@,
{
    let mut v: Vec<char> = Vec::new();
    for c in it: s.chars()
        invariant
            it.seq() == s@,
            v@ == s@.take(it.index() as int),
    {
        v.push(c);
        assert(v@ =~= s@.take(it.index() as int + 1));
    }
    assert(v@ =~= s@);
    v
}

/// Appends `c` to the end of `s` (`String::push`).
#[verifier::external_body]
pub(crate) fn push_char(s: &mut String, c: char)
    ensures
        final(s)@ == old(s)@.push(c),
{
    s.push(c);
}

/// The string made of `cs[lo..hi]`.
pub fn string_from(cs: &[char], lo: usize, hi: usize) -> (r: String)
    requires
        lo <= hi <= cs@.len(),
    ensures
        r@ == cs@.subrange(lo as int, hi as int),
{
    let mut r = String::new();
    let mut i = lo;
    while i < hi
        invariant
            lo <= i <= hi <= cs@.len(),
            r@ == cs@.subrange(lo as int, i as int),
        decreases hi - i,
    {
        push_char(&mut r, cs[i]);
        assert(r@ =~= cs@.subrange(lo as int, i + 1));
        i = i + 1;
    }
    r
}

proof fn lemma_trim_start_step(s: Seq<char>, i: int)
    requires
        0 <= i < s.len(),
        is_whitespace(s[i]),
    ensures
        trim_start(s.subrange(i, s.len() as int)) == trim_start(s.subrange(i + 1, s.len() as int)),
{
    let t = s.subrange(i, s.len() as int);
    assert(t.drop_first() =~= s.subrange(i + 1, s.len() as int));
}

proof fn lemma_trim_end_step(s: Seq<char>, lo: int, hi: int)
    requires
        0 <= lo < hi <= s.len(),
        is_whitespace(s[hi - 1]),
    ensures
        trim_end(s.subrange(lo, hi)) == trim_end(s.subrange(lo, hi - 1)),
{
    let t = s.subrange(lo, hi);
    assert(t.drop_last() =~= s.subrange(lo, hi - 1));
}

/// The bounds of `trim(cs)` within `cs`.
pub fn trim_bounds(cs: &[char]) -> (r: (usize, usize))
    ensures
        r.0 <= r.1 <= cs@.len(),
        cs@.subrange(r.0 as int, r.1 as int) == trim(cs@),
        trim_start(cs@) == cs@.subrange(r.0 as int, cs@.len() as int),
{
    let n = cs.len();
    let mut lo: usize = 0;
    assert(cs@.subrange(0, n as int) =~= cs@);
    while lo < n && is_whitespace_char(cs[lo])
        invariant
            lo <= n == cs@.len(),
            trim_start(cs@) == trim_start(cs@.subrange(lo as int, n as int)),
        decreases n - lo,
    {
        proof {
            lemma_trim_start_step(cs@, lo as int);
        }
        lo = lo + 1;
    }
    assert(trim_start(cs@.subrange(lo as int, n as int)) == cs@.subrange(lo as int, n as int));
    let mut hi: usize = n;
    while hi > lo && is_whitespace_char(cs[hi - 1])
        invariant
            lo <= hi <= n == cs@.len(),
            trim(cs@) == trim_end(cs@.subrange(lo as int, hi as int)),
        decreases hi,
    {
        proof {
            lemma_trim_end_step(cs@, lo as int, hi as int);
        }
        hi = hi - 1;
    }
    (lo, hi)
}

/// The bound of `trim_end(cs)` within `cs`.
pub fn trim_end_bound(cs: &[char]) -> (r: usize)
    ensures
        r <= cs@.len(),
        cs@.subrange(0, r as int) == trim_end(cs@),
{
    let n = cs.len();
    let mut hi: usize = n;
    assert(cs@.subrange(0, n as int) =~= cs@);
    while hi > 0 && is_whitespace_char(cs[hi - 1])
        invariant
            hi <= n == cs@.len(),
            trim_end(cs@) == trim_end(cs@.subrange(0, hi as int)),
        decreases hi,
    {
        proof {
            lemma_trim_end_step(cs@, 0, hi as int);
        }
        hi = hi - 1;
    }
    hi
}

/// `s` with leading and trailing whitespace removed (`str::trim`).
pub fn trim_str(s: &str) -> (r: String)
    ensures
        r@ == trim(s@),
{
    let cs = chars_of(s);
    let (lo, hi) = trim_bounds(cs.as_slice());
    string_from(cs.as_slice(), lo, hi)
}

/// `s` with trailing whitespace removed (`str::trim_end`).
pub fn trim_end_str(s: &str) -> (r: String)
    ensures
        r@ == trim_end(s@),
{
    let cs = chars_of(s);
    let hi = trim_end_bound(cs.as_slice());
    string_from(cs.as_slice(), 0, hi)
}

/// Whether two strings hold the same characters.
pub fn str_eq(a: &str, b: &str) -> (r: bool)
    ensures
        r == (a@ == b@),
{
    let x = chars_of(a);
    let y = chars_of(b);
    if x.len() != y.len() {
        return false;
    }
    let mut i: usize = 0;
    while i < x.len()
        invariant
            x@ == a@,
            y@ == b@,
            x@.len() == y@.len(),
            i <= x@.len(),
            forall|j: int| 0 <= j < i ==> x@[j] == y@[j],
        decreases x.len() - i,
    {
        if x[i] != y[i] {
            return false;
        }
        i = i + 1;
    }
    assert(x@ =~= y@);
    true
}

/// Whether `s` begins with `p`.
pub open spec fn has_prefix(s: Seq<char>, p: Seq<char>) -> bool {
    p.len() <= s.len() && s.subrange(0, p.len() as int) == p
}

/// Whether `s` begins with `p` (`str::starts_with`).
pub fn starts_with(s: &str, p: &str) -> (r: bool)
    ensures
        r == has_prefix(s@, p@),
{
    let x = chars_of(s);
    let y = chars_of(p);
    if y.len() > x.len() {
        return false;
    }
    let mut i: usize = 0;
    while i < y.len()
        invariant
            x@ == s@,
            y@ == p@,
            y@.len() <= x@.len(),
            i <= y@.len(),
            forall|j: int| 0 <= j < i ==> x@[j] == y@[j],
        decreases y.len() - i,
    {
        if x[i] != y[i] {
            assert(s@.subrange(0, p@.len() as int)[i as int] != p@[i as int]);
            return false;
        }
        i = i + 1;
    }
    assert(s@.subrange(0, p@.len() as int) =~= p@);
    true
}

/// Whether the last character of `s` is `c`.
pub fn ends_with_char(s: &str, c: char) -> (r: bool)
    ensures
        r == (s@.len() > 0 && s@.last() == c),
{
    let x = chars_of(s);
    x.len() > 0 && x[x.len() - 1] == c
}

/// Whether `sep` occurs in `s` at position `i`.
pub open spec fn occurs_at(s: Seq<char>, sep: Seq<char>, i: int) -> bool {
    0 <= i && i + sep.len() <= s.len() && s.subrange(i, i + sep.len()) == sep
}

/// The last position `j <= i` at which `sep` occurs in `s`.
pub open spec fn rfind_from(s: Seq<char>, sep: Seq<char>, i: int) -> Option<int>
    decreases i + 1,
{
    if i < 0 {
        None
    } else if occurs_at(s, sep, i) {
        Some(i)
    } else {
        rfind_from(s, sep, i - 1)
    }
}

/// The first position `j >= i` at which `sep` occurs in `s`.
pub open spec fn find_from(s: Seq<char>, sep: Seq<char>, i: int) -> Option<int>
    decreases s.len() + 1 - i,
{
    if i < 0 || i + sep.len() > s.len() {
        None
    } else if occurs_at(s, sep, i) {
        Some(i)
    } else {
        find_from(s, sep, i + 1)
    }
}

/// The part of `s` after the last occurrence of `sep`, or all of `s` when `sep` does not
/// occur (the first item of `str::rsplit`).
pub open spec fn last_part(s: Seq<char>, sep: Seq<char>) -> Seq<char> {
    match rfind_from(s, sep, s.len() - sep.len()) {
        Some(i) => s.skip(i + sep.len()),
        None => s,
    }
}

/// The pieces of `s` between the occurrences of `sep`, from left to right (`str::split`).
pub open spec fn split(s: Seq<char>, sep: Seq<char>) -> Seq<Seq<char>>
    decreases s.len(),
{
    if sep.len() == 0 {
        seq![s]
    } else {
        match find_from(s, sep, 0) {
            Some(i) => if 0 <= i && i + sep.len() <= s.len() {
                seq![s.take(i)] + split(s.skip(i + sep.len()), sep)
            } else {
                seq![s]
            },
            None => seq![s],
        }
    }
}

/// The strings of `parts`, with `sep` between each two of them.
pub open spec fn join(parts: Seq<Seq<char>>, sep: Seq<char>) -> Seq<char>
    decreases parts.len(),
{
    if parts.len() == 0 {
        Seq::empty()
    } else if parts.len() == 1 {
        parts[0]
    } else {
        join(parts.drop_last(), sep) + sep + parts.last()
    }
}

/// Whether `sep` occurs in `s` at position `i`.
pub fn occurs_at_exec(s: &[char], sep: &[char], i: usize) -> (r: bool)
    ensures
        r == occurs_at(s@, sep@, i as int),
{
    let n = s.len();
    if i > n || sep.len() > n - i {
        return false;
    }
    let mut k: usize = 0;
    while k < sep.len()
        invariant
            n == s@.len(),
            i + sep@.len() <= n,
            k <= sep@.len(),
            forall|j: int| 0 <= j < k ==> s@[i + j] == sep@[j],
        decreases sep.len() - k,
    {
        if s[i + k] != sep[k] {
            assert(s@.subrange(i as int, i + sep@.len())[k as int] != sep@[k as int]);
            return false;
        }
        k = k + 1;
    }
    assert(s@.subrange(i as int, i + sep@.len()) =~= sep@);
    true
}

/// The last position at which `sep` occurs in `s`.
pub fn rfind(s: &[char], sep: &[char]) -> (r: Option<usize>)
    ensures
        r matches Some(i) ==> rfind_from(s@, sep@, s@.len() - sep@.len()) == Some(i as int),
        r is None ==> rfind_from(s@, sep@, s@.len() - sep@.len()) is None,
{
    if sep.len() > s.len() {
        return None;
    }
    let mut i: usize = s.len() - sep.len();
    loop
        invariant
            sep@.len() <= s@.len(),
            i <= s@.len() - sep@.len(),
            rfind_from(s@, sep@, s@.len() - sep@.len()) == rfind_from(s@, sep@, i as int),
        decreases i,
    {
        if occurs_at_exec(s, sep, i) {
            return Some(i);
        }
        if i == 0 {
            return None;
        }
        i = i - 1;
    }
}

/// The first position at or after `from` at which `sep` occurs in `s`.
pub fn find(s: &[char], sep: &[char], from: usize) -> (r: Option<usize>)
    ensures
        r matches Some(i) ==> find_from(s@, sep@, from as int) == Some(i as int),
        r is None ==> find_from(s@, sep@, from as int) is None,
{
    let n = s.len();
    let mut i: usize = from;
    while i <= n && sep.len() <= n - i
        invariant
            n == s@.len(),
            from <= i,
            find_from(s@, sep@, from as int) == find_from(s@, sep@, i as int),
        decreases n + 1 - i,
    {
        if occurs_at_exec(s, sep, i) {
            return Some(i);
        }
        if i == n {
            assert(find_from(s@, sep@, i as int + 1) is None);
            return None;
        }
        i = i + 1;
    }
    None
}

/// The part of `s` after the last occurrence of `sep`, or all of `s`.
pub fn last_part_exec(s: &str, sep: &str) -> (r: String)
    ensures
        r@ == last_part(s@, sep@),
{
    let cs = chars_of(s);
    let sp = chars_of(sep);
    proof {
        lemma_rfind_from_bounds(s@, sep@, s@.len() - sep@.len());
    }
    match rfind(cs.as_slice(), sp.as_slice()) {
        Some(i) => {
            assert(occurs_at(s@, sep@, i as int));
            let n = cs.len();
            let m = sp.len();
            assert(i + m <= n);
            let start = i + m;
            let r = string_from(cs.as_slice(), start, cs.len());
            assert(r@ =~= s@.skip(start as int));
            r
        },
        None => string_from(cs.as_slice(), 0, cs.len()),
    }
}

proof fn lemma_rfind_from_bounds(s: Seq<char>, sep: Seq<char>, i: int)
    ensures
        rfind_from(s, sep, i) matches Some(j) ==> j <= i && occurs_at(s, sep, j),
    decreases i + 1,
{
    if i >= 0 && !occurs_at(s, sep, i) {
        lemma_rfind_from_bounds(s, sep, i - 1);
    }
}

proof fn lemma_find_from_bounds(s: Seq<char>, sep: Seq<char>, i: int)
    ensures
        find_from(s, sep, i) matches Some(j) ==> i <= j && occurs_at(s, sep, j),
    decreases s.len() + 1 - i,
{
    if i < 0 || i + sep.len() > s.len() {
    } else if occurs_at(s, sep, i) {
    } else {
        lemma_find_from_bounds(s, sep, i + 1);
    }
}

proof fn lemma_find_from_shift(s: Seq<char>, sep: Seq<char>, k: int, i: int)
    requires
        0 <= k <= s.len(),
        0 <= i,
    ensures
        find_from(s.skip(k), sep, i) == (match find_from(s, sep, i + k) {
            Some(j) => Some(j - k),
            None => None,
        }),
    decreases s.len() + 1 - i - k,
{
    let t = s.skip(k);
    if i + sep.len() > t.len() {
    } else {
        assert(t.subrange(i, i + sep.len()) =~= s.subrange(i + k, i + k + sep.len()));
        if occurs_at(t, sep, i) {
        } else {
            lemma_find_from_shift(s, sep, k, i + 1);
        }
    }
}

/// The pieces of `s` between the occurrences of `sep`, as strings.
pub fn split_exec(s: &str, sep: &str) -> (r: Vec<String>)
    ensures
        r@.map_values(|p: String| p@) == split(s@, sep@),
{
    let cs = chars_of(s);
    let sp = chars_of(sep);
    let mut r: Vec<String> = Vec::new();
    if sp.len() == 0 {
        assert(split(s@, sep@) == seq![s@]);
        let whole = string_from(cs.as_slice(), 0, cs.len());
        assert(whole@ =~= s@);
        r.push(whole);
        assert(r@.map_values(|p: String| p@) =~= split(s@, sep@));
        return r;
    }
    let mut start: usize = 0;
    assert(s@.skip(0) =~= s@);
    assert(r@.map_values(|p: String| p@) + split(s@, sep@) =~= split(s@, sep@));
    loop
        invariant
            cs@ == s@,
            sp@ == sep@,
            sp@.len() > 0,
            start <= cs@.len(),
            split(s@, sep@) == r@.map_values(|p: String| p@) + split(s@.skip(start as int), sep@),
        decreases cs.len() - start,
    {
        let ghost rest = s@.skip(start as int);
        proof {
            lemma_find_from_shift(s@, sep@, start as int, 0);
        }
        match find(cs.as_slice(), sp.as_slice(), start) {
            Some(i) => {
                proof {
                    lemma_find_from_bounds(s@, sep@, start as int);
                }
                let piece = string_from(cs.as_slice(), start, i);
                assert(piece@ =~= rest.take(i - start));
                assert(rest.skip(i - start + sep@.len()) =~= s@.skip(i + sp@.len()));
                let ghost before = r@.map_values(|p: String| p@);
                r.push(piece);
                assert(r@.map_values(|p: String| p@) =~= before.push(piece@));
                assert(split(rest, sep@) == seq![rest.take(i - start)] + split(rest.skip(i - start + sep@.len()), sep@));
                assert(before + split(rest, sep@) =~= before.push(piece@) + split(s@.skip(i + sp@.len()), sep@));
                start = i + sp.len();
            },
            None => {
                let piece = string_from(cs.as_slice(), start, cs.len());
                assert(piece@ =~= rest);
                let ghost before = r@.map_values(|p: String| p@);
                r.push(piece);
                assert(r@.map_values(|p: String| p@) =~= before.push(piece@));
                assert(split(rest, sep@) == seq![rest]);
                assert(before + split(rest, sep@) =~= before.push(piece@));
                return r;
            },
        }
    }
}

/// The views of a sequence of strings.
pub open spec fn string_views(s: Seq<String>) -> Seq<Seq<char>> {
    s.map_values(|x: String| x@)
}

/// The strings of `parts`, with `sep` between each two of them (`[String]::join`).
pub fn join_strings(parts: &Vec<String>, sep: &str) -> (r: String)
    ensures
        r@ == join(string_views(parts@), sep@),
{
    let ghost ps = string_views(parts@);
    let mut out = String::new();
    for i in 0..parts.len()
        invariant
            ps == string_views(parts@),
            out@ == join(ps.take(i as int), sep@),
    {
        if i > 0 {
            out.append(sep);
        }
        out.append(parts[i].as_str());
        assert(ps.take(i + 1).drop_last() =~= ps.take(i as int));
    }
    assert(ps.take(parts@.len() as int) =~= ps);
    out
}

/// Joining after one more part adds the separator and the part.
pub proof fn lemma_join_push(parts: Seq<Seq<char>>, x: Seq<char>, sep: Seq<char>)
    ensures
        parts.len() > 0 ==> join(parts.push(x), sep) == join(parts, sep) + sep + x,
        parts.len() == 0 ==> join(parts.push(x), sep) == x,
{
    assert(parts.push(x).drop_last() =~= parts);
}

/// Joining two non-empty lists of parts puts the separator between their joins.
pub proof fn lemma_join_concat(a: Seq<Seq<char>>, b: Seq<Seq<char>>, sep: Seq<char>)
    requires
        a.len() > 0,
        b.len() > 0,
    ensures
        join(a + b, sep) == join(a, sep) + sep + join(b, sep),
    decreases b.len(),
{
    if b.len() == 1 {
        assert(a + b =~= a.push(b[0]));
        lemma_join_push(a, b[0], sep);
    } else {
        assert((a + b).drop_last() =~= a + b.drop_last());
        assert((a + b).last() == b.last());
        lemma_join_concat(a, b.drop_last(), sep);
        assert(join(a, sep) + sep + join(b.drop_last(), sep) + sep + b.last() =~= join(a, sep)
            + sep + (join(b.drop_last(), sep) + sep + b.last()));
    }
}

/// The join of parts whose last part is not empty is not empty.
pub proof fn lemma_join_nonempty_last(parts: Seq<Seq<char>>, sep: Seq<char>)
    requires
        parts.len() > 0,
        parts.last().len() > 0,
    ensures
        join(parts, sep).len() > 0,
{
}

/// Whether `s` neither starts nor ends with whitespace.
pub open spec fn is_trimmed(s: Seq<char>) -> bool {
    s.len() > 0 ==> !is_whitespace(s[0]) && !is_whitespace(s.last())
}

proof fn lemma_trim_start_settled(s: Seq<char>)
    ensures
        trim_start(s).len() == 0 || !is_whitespace(trim_start(s)[0]),
    decreases s.len(),
{
    if s.len() > 0 && is_whitespace(s[0]) {
        lemma_trim_start_settled(s.drop_first());
    }
}

proof fn lemma_trim_end_keeps_first(s: Seq<char>)
    ensures
        trim_end(s).len() <= s.len(),
        trim_end(s).len() > 0 ==> trim_end(s)[0] == s[0],
        trim_end(s).len() == 0 || !is_whitespace(trim_end(s).last()),
    decreases s.len(),
{
    if s.len() > 0 && is_whitespace(s.last()) {
        lemma_trim_end_keeps_first(s.drop_last());
    }
}

/// Trimming leaves no whitespace at either end.
pub proof fn lemma_trim_is_trimmed(s: Seq<char>)
    ensures
        is_trimmed(trim(s)),
{
    lemma_trim_start_settled(s);
    lemma_trim_end_keeps_first(trim_start(s));
}

/// A text with no whitespace at either end is its own trim.
pub proof fn lemma_trimmed_is_fixed(s: Seq<char>)
    requires
        is_trimmed(s),
    ensures
        trim(s) == s,
        trim_end(s) == s,
{
}

} // verus!
