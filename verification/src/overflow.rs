//! Where `composer-semver` adds one, in `u32`, to a number of a constraint
//! text, and so where such a text overflows.
use crate::text::{chars_of, is_digit, is_white_space, number_value};
use vstd::prelude::*;

verus! {

/// `s` cut at each `c`, as `str::split` cuts it: one part more than there
/// are `c` in `s`.
pub open spec fn split_on(s: Seq<char>, c: char) -> Seq<Seq<char>>
    decreases s.len(),
{
    if s.len() == 0 {
        seq![Seq::<char>::empty()]
    } else {
        let r = split_on(s.drop_last(), c);
        if s.last() == c {
            r.push(Seq::<char>::empty())
        } else {
            r.update(r.len() - 1, r.last().push(s.last()))
        }
    }
}

proof fn lemma_split_on_len(s: Seq<char>, c: char)
    ensures
        split_on(s, c).len() >= 1,
    decreases s.len(),
{
    if s.len() > 0 {
        lemma_split_on_len(s.drop_last(), c);
    }
}

/// The part of `s` before its first `c`; all of `s` when it holds none.
pub open spec fn before_first(s: Seq<char>, c: char) -> Seq<char> {
    split_on(s, c)[0]
}

/// The parts that are not empty, in order.
pub open spec fn nonempty_parts(ps: Seq<Seq<char>>) -> Seq<Seq<char>>
    decreases ps.len(),
{
    if ps.len() == 0 {
        Seq::empty()
    } else {
        let r = nonempty_parts(ps.drop_last());
        if ps.last().len() > 0 {
            r.push(ps.last())
        } else {
            r
        }
    }
}

/// `s` without one leading `v` or `V`.
pub open spec fn strip_v(s: Seq<char>) -> Seq<char> {
    if s.len() > 0 && (s[0] == 'v' || s[0] == 'V') {
        s.drop_first()
    } else {
        s
    }
}

/// The segments in which composer-semver reads the numbers of a partial
/// version: without a leading `v`, before the first `-`, cut at each `.`,
/// empty ones left out.
pub open spec fn numeric_segments(s: Seq<char>) -> Seq<Seq<char>> {
    nonempty_parts(split_on(before_first(strip_v(s), '-'), '.'))
}

/// Every character is a decimal digit.
pub open spec fn all_digits(s: Seq<char>) -> bool {
    forall|k: int| 0 <= k < s.len() ==> is_digit(#[trigger] s[k])
}

/// Segments that composer-semver goes on with: there is one, and the first
/// is all digits.
pub open spec fn segments_numeric(segs: Seq<Seq<char>>) -> bool {
    segs.len() > 0 && all_digits(segs[0])
}

/// `s` without one leading `+`.
pub open spec fn unsigned_text(s: Seq<char>) -> Seq<char> {
    if s.len() > 0 && s[0] == '+' {
        s.drop_first()
    } else {
        s
    }
}

/// What `s.parse::<u32>().unwrap_or(0)` gives: an optional `+` and at least
/// one digit, at most `u32::MAX`, is that number; anything else is 0.
pub open spec fn u32_or_zero(s: Seq<char>) -> int {
    let d = unsigned_text(s);
    if d.len() > 0 && all_digits(d) && number_value(d) <= u32::MAX {
        number_value(d)
    } else {
        0
    }
}

/// The number of segment `k`, 0 when there is none.
pub open spec fn segment_number(segs: Seq<Seq<char>>, k: int) -> int {
    if 0 <= k < segs.len() {
        u32_or_zero(segs[k])
    } else {
        0
    }
}

/// `^rest` adds one to its major number, or, where that is 0 and a minor one
/// is written, to the minor number, or, where that is 0 too and a patch
/// number is written, to the patch number; here that number is `u32::MAX`.
pub open spec fn caret_overflows(rest: Seq<char>) -> bool {
    let segs = numeric_segments(rest);
    &&& segments_numeric(segs)
    &&& if segment_number(segs, 0) > 0 || segs.len() < 2 {
        segment_number(segs, 0) == u32::MAX
    } else if segment_number(segs, 1) > 0 || segs.len() < 3 {
        segment_number(segs, 1) == u32::MAX
    } else {
        segment_number(segs, 2) == u32::MAX
    }
}

/// `~rest` adds one to its major number when one or two numbers are
/// written, else to its minor number; here that number is `u32::MAX`.
pub open spec fn tilde_overflows(rest: Seq<char>) -> bool {
    let segs = numeric_segments(rest);
    &&& segments_numeric(segs)
    &&& if segs.len() < 3 {
        segment_number(segs, 0) == u32::MAX
    } else {
        segment_number(segs, 1) == u32::MAX
    }
}

/// A wildcard segment: `*`, `x` or `X`.
pub open spec fn is_wild(p: Seq<char>) -> bool {
    p == seq!['*'] || p == seq!['x'] || p == seq!['X']
}

/// Some segment is a wildcard.
pub open spec fn has_wild(parts: Seq<Seq<char>>) -> bool {
    exists|k: int| 0 <= k < parts.len() && #[trigger] is_wild(parts[k])
}

/// A wildcard version adds one to the number just before its first
/// wildcard; here that number is `u32::MAX`.
pub open spec fn wildcard_overflows(s: Seq<char>) -> bool {
    let parts = split_on(s, '.');
    exists|k: int|
        0 < k < parts.len() && #[trigger] is_wild(parts[k]) && (forall|m: int| 0 <= m < k ==> !is_wild(parts[m]))
            && u32_or_zero(parts[k - 1]) == u32::MAX
}

/// A partial version of one or two numbers (before any `+`) adds one to its
/// last number; here that number is `u32::MAX`.
pub open spec fn partial_overflows(s: Seq<char>) -> bool {
    let segs = numeric_segments(before_first(s, '+'));
    &&& segments_numeric(segs)
    &&& (segs.len() == 1 && segment_number(segs, 0) == u32::MAX) || (segs.len() == 2
        && segment_number(segs, 1) == u32::MAX)
}

/// `s` starts with `dev-`, in any case.
pub open spec fn dev_prefix(s: Seq<char>) -> bool {
    &&& s.len() >= 4
    &&& s[0] == 'd' || s[0] == 'D'
    &&& s[1] == 'e' || s[1] == 'E'
    &&& s[2] == 'v' || s[2] == 'V'
    &&& s[3] == '-'
}

/// `s` starts with a comparison operator.
pub open spec fn operator_prefix(s: Seq<char>) -> bool {
    s.len() > 0 && (s[0] == '>' || s[0] == '<' || s[0] == '=' || (s.len() > 1 && s[0] == '!' && s[1]
        == '='))
}

/// Reading the atom `t` overflows: composer-semver takes the part before any
/// `#`; `*`, a `dev-` branch and an operator atom add nothing; otherwise it
/// reads a caret, a tilde, a wildcard or a partial version, by the first
/// that applies.
pub open spec fn atom_overflows(t: Seq<char>) -> bool {
    let s = before_first(t, '#');
    if s == seq!['*'] || s == seq!['x'] || s == seq!['X'] || dev_prefix(s) {
        false
    } else if s.len() > 0 && s[0] == '^' {
        caret_overflows(s.drop_first())
    } else if s.len() > 0 && s[0] == '~' {
        tilde_overflows(s.drop_first())
    } else if operator_prefix(s) {
        false
    } else if has_wild(split_on(s, '.')) {
        wildcard_overflows(s)
    } else {
        partial_overflows(s)
    }
}

/// What separates the atoms of a constraint: white space, `,` and `|`.
pub open spec fn is_separator(c: char) -> bool {
    is_white_space(c) || c == ',' || c == '|'
}

/// Positions `i` up to `j` of `s` are an atom: a maximal run of characters
/// that separate nothing.
pub open spec fn atom_at(s: Seq<char>, i: int, j: int) -> bool {
    &&& 0 <= i < j <= s.len()
    &&& forall|k: int| i <= k < j ==> !is_separator(#[trigger] s[k])
    &&& i == 0 || is_separator(s[i - 1])
    &&& j == s.len() || is_separator(s[j])
}

/// A constraint text that `composer_semver::Constraint::parse` reads without
/// overflow: no atom adds one to a number equal to `u32::MAX`. An atom that
/// an operator written apart from it takes as its version, the ends of a
/// hyphen range `A - B`, a branch alias such as `4294967295.x-dev`, and an
/// atom that the parser refuses before it gets to the addition, are judged
/// here as atoms of their own all the same.
pub open spec fn range_text_supported(text: Seq<char>) -> bool {
    !exists|i: int, j: int| #[trigger] atom_at(text, i, j) && atom_overflows(text.subrange(i, j))
}

/// The characters of `v` from `a` up to `b`.
fn chars_between(v: &Vec<char>, a: usize, b: usize) -> (r: Vec<char>)
    requires
        a <= b <= v@.len(),
    ensures
        r@ == v@.subrange(a as int, b as int),
{
    let mut out: Vec<char> = Vec::new();
    let mut i = a;
    while i < b
        invariant
            a <= i <= b <= v@.len(),
            out@ == v@.subrange(a as int, i as int),
        decreases b - i,
    {
        out.push(v[i]);
        assert(v@.subrange(a as int, i + 1) =~= v@.subrange(a as int, i as int).push(v@[i as int]));
        i = i + 1;
    }
    out
}

/// The character views of a list of character vectors.
pub open spec fn char_parts(v: Seq<Vec<char>>) -> Seq<Seq<char>> {
    v.map_values(|x: Vec<char>| x@)
}

/// `s` cut at each `c`.
fn split_chars(s: &Vec<char>, c: char) -> (r: Vec<Vec<char>>)
    ensures
        char_parts(r@) == split_on(s@, c),
{
    let mut done: Vec<Vec<char>> = Vec::new();
    let mut cur: Vec<char> = Vec::new();
    assert(s@.take(0) =~= Seq::<char>::empty());
    assert(char_parts(done@).push(cur@) =~= seq![Seq::<char>::empty()]);
    for i in 0..s.len()
        invariant
            char_parts(done@).push(cur@) == split_on(s@.take(i as int), c),
    {
        let ghost pd = char_parts(done@);
        let ghost pc = cur@;
        assert(s@.take(i + 1).drop_last() =~= s@.take(i as int));
        assert(s@.take(i + 1).last() == s@[i as int]);
        if s[i] == c {
            let full = cur;
            cur = Vec::new();
            done.push(full);
            assert(char_parts(done@) =~= pd.push(pc));
            assert(char_parts(done@).push(cur@) =~= pd.push(pc).push(Seq::<char>::empty()));
        } else {
            cur.push(s[i]);
            assert(char_parts(done@).push(cur@) =~= pd.push(pc).update(pd.len() as int, pc.push(s@[i as int])));
        }
    }
    assert(s@.take(s@.len() as int) =~= s@);
    let ghost pd = char_parts(done@);
    done.push(cur);
    assert(char_parts(done@) =~= pd.push(cur@));
    done
}

/// The part of `s` before its first `c`.
fn before_char(s: &Vec<char>, c: char) -> (r: Vec<char>)
    ensures
        r@ == before_first(s@, c),
{
    let mut parts = split_chars(s, c);
    proof {
        lemma_split_on_len(s@, c);
    }
    assert(char_parts(parts@)[0] == parts@[0]@);
    parts.remove(0)
}

/// The parts that are not empty.
fn keep_nonempty(ps: &Vec<Vec<char>>) -> (r: Vec<Vec<char>>)
    ensures
        char_parts(r@) == nonempty_parts(char_parts(ps@)),
{
    let ghost all = char_parts(ps@);
    let mut out: Vec<Vec<char>> = Vec::new();
    assert(all.take(0) =~= Seq::<Seq<char>>::empty());
    for i in 0..ps.len()
        invariant
            all == char_parts(ps@),
            char_parts(out@) == nonempty_parts(all.take(i as int)),
    {
        assert(all.take(i + 1).drop_last() =~= all.take(i as int));
        assert(all.take(i + 1).last() == ps@[i as int]@);
        if ps[i].len() > 0 {
            let ghost before = char_parts(out@);
            let p = chars_between(&ps[i], 0, ps[i].len());
            assert(p@ =~= ps@[i as int]@);
            out.push(p);
            assert(char_parts(out@) =~= before.push(p@));
        }
    }
    assert(all.take(ps@.len() as int) =~= all);
    out
}

/// `s` without one leading `v` or `V`.
fn strip_v_of(s: &Vec<char>) -> (r: Vec<char>)
    ensures
        r@ == strip_v(s@),
{
    if s.len() > 0 && (s[0] == 'v' || s[0] == 'V') {
        let r = chars_between(s, 1, s.len());
        assert(r@ =~= s@.drop_first());
        r
    } else {
        chars_between(s, 0, s.len())
    }
}

/// The segments of a partial version.
fn numeric_segments_of(s: &Vec<char>) -> (r: Vec<Vec<char>>)
    ensures
        char_parts(r@) == numeric_segments(s@),
{
    let t = strip_v_of(s);
    let body = before_char(&t, '-');
    let parts = split_chars(&body, '.');
    keep_nonempty(&parts)
}

/// Whether every character is a decimal digit.
fn all_digits_of(s: &Vec<char>) -> (r: bool)
    ensures
        r == all_digits(s@),
{
    let mut i: usize = 0;
    while i < s.len()
        invariant
            i <= s@.len(),
            forall|k: int| 0 <= k < i ==> is_digit(#[trigger] s@[k]),
        decreases s.len() - i,
    {
        if !('0' <= s[i] && s[i] <= '9') {
            assert(!is_digit(s@[i as int]));
            return false;
        }
        i = i + 1;
    }
    true
}

/// What `s.parse::<u32>().unwrap_or(0)` gives.
fn u32_or_zero_of(s: &Vec<char>) -> (r: u64)
    ensures
        r == u32_or_zero(s@),
{
    let start: usize = if s.len() > 0 && s[0] == '+' {
        1
    } else {
        0
    };
    let ghost d = unsigned_text(s@);
    assert(d =~= s@.subrange(start as int, s@.len() as int));
    if start == s.len() {
        return 0;
    }
    let cap: u64 = 0x1_0000_0000;
    let mut acc: u64 = 0;
    let mut i = start;
    assert(s@.subrange(start as int, start as int) =~= Seq::<char>::empty());
    while i < s.len()
        invariant
            start <= i <= s@.len(),
            d == unsigned_text(s@),
            d =~= s@.subrange(start as int, s@.len() as int),
            cap == 0x1_0000_0000,
            forall|k: int| start <= k < i ==> is_digit(#[trigger] s@[k]),
            acc == (if number_value(s@.subrange(start as int, i as int)) < cap {
                number_value(s@.subrange(start as int, i as int))
            } else {
                cap as int
            }),
            number_value(s@.subrange(start as int, i as int)) >= 0,
        decreases s.len() - i,
    {
        let c = s[i];
        if !('0' <= c && c <= '9') {
            assert(d[i - start] == c);
            assert(!is_digit(d[i - start]));
            assert(!all_digits(d));
            return 0;
        }
        let dv: u64 = (c as u32 - '0' as u32) as u64;
        assert(s@.subrange(start as int, i + 1).drop_last() =~= s@.subrange(start as int, i as int));
        if acc >= cap {
            acc = cap;
        } else {
            let next = acc * 10 + dv;
            acc = if next < cap {
                next
            } else {
                cap
            };
        }
        i = i + 1;
    }
    assert(all_digits(d)) by {
        assert forall|k: int| 0 <= k < d.len() implies is_digit(#[trigger] d[k]) by {
            assert(d[k] == s@[start + k]);
        }
    }
    assert(s@.subrange(start as int, i as int) == d);
    if acc <= 0xFFFF_FFFF {
        acc
    } else {
        0
    }
}

/// The number of segment `k`, 0 when there is none.
fn segment_number_of(segs: &Vec<Vec<char>>, k: usize) -> (r: u64)
    ensures
        r == segment_number(char_parts(segs@), k as int),
{
    if k < segs.len() {
        u32_or_zero_of(&segs[k])
    } else {
        0
    }
}

/// Whether [`caret_overflows`] holds of `rest`.
fn caret_overflows_of(rest: &Vec<char>) -> (r: bool)
    ensures
        r == caret_overflows(rest@),
{
    let segs = numeric_segments_of(rest);
    if segs.len() == 0 || !all_digits_of(&segs[0]) {
        return false;
    }
    let major = segment_number_of(&segs, 0);
    let minor = segment_number_of(&segs, 1);
    if major > 0 || segs.len() < 2 {
        major == 0xFFFF_FFFF
    } else if minor > 0 || segs.len() < 3 {
        minor == 0xFFFF_FFFF
    } else {
        segment_number_of(&segs, 2) == 0xFFFF_FFFF
    }
}

/// Whether [`tilde_overflows`] holds of `rest`.
fn tilde_overflows_of(rest: &Vec<char>) -> (r: bool)
    ensures
        r == tilde_overflows(rest@),
{
    let segs = numeric_segments_of(rest);
    if segs.len() == 0 || !all_digits_of(&segs[0]) {
        return false;
    }
    if segs.len() < 3 {
        segment_number_of(&segs, 0) == 0xFFFF_FFFF
    } else {
        segment_number_of(&segs, 1) == 0xFFFF_FFFF
    }
}

/// Whether `p` is a wildcard segment.
fn is_wild_of(p: &Vec<char>) -> (r: bool)
    ensures
        r == is_wild(p@),
{
    if p.len() == 1 && (p[0] == '*' || p[0] == 'x' || p[0] == 'X') {
        assert(p@ =~= seq![p@[0]]);
        true
    } else {
        proof {
            if p@.len() == 1 {
                assert(p@ =~= seq![p@[0]]);
            }
        }
        false
    }
}

/// The index of the first wildcard segment, if there is one.
fn first_wild(parts: &Vec<Vec<char>>) -> (r: Option<usize>)
    ensures
        r is None ==> !has_wild(char_parts(parts@)),
        r matches Some(k) ==> k < parts@.len() && is_wild(char_parts(parts@)[k as int]) && forall|m: int|
            0 <= m < k ==> !is_wild(#[trigger] char_parts(parts@)[m]),
{
    let ghost ps = char_parts(parts@);
    let mut k: usize = 0;
    while k < parts.len()
        invariant
            ps == char_parts(parts@),
            k <= parts@.len(),
            forall|m: int| 0 <= m < k ==> !is_wild(#[trigger] ps[m]),
        decreases parts.len() - k,
    {
        assert(ps[k as int] == parts@[k as int]@);
        if is_wild_of(&parts[k]) {
            return Some(k);
        }
        k = k + 1;
    }
    None
}

/// Whether [`wildcard_overflows`] holds of `s`, given that `s` has a
/// wildcard segment.
fn wildcard_overflows_of(s: &Vec<char>) -> (r: bool)
    ensures
        r == wildcard_overflows(s@),
{
    let parts = split_chars(s, '.');
    let ghost ps = char_parts(parts@);
    match first_wild(&parts) {
        None => false,
        Some(k) => {
            if k == 0 {
                proof {
                    assert forall|k2: int|
                        0 < k2 < ps.len() && #[trigger] is_wild(ps[k2]) && (forall|m: int| 0 <= m < k2 ==> !is_wild(ps[m]))
                            implies u32_or_zero(ps[k2 - 1]) != u32::MAX by {
                        assert(!is_wild(ps[0]));
                    }
                }
                false
            } else {
                assert(ps[k - 1] == parts@[k - 1]@);
                let v = u32_or_zero_of(&parts[k - 1]);
                proof {
                    assert forall|k2: int|
                        0 < k2 < ps.len() && #[trigger] is_wild(ps[k2]) && (forall|m: int| 0 <= m < k2 ==> !is_wild(ps[m]))
                            implies k2 == k by {
                        if k2 < k {
                        } else if k2 > k {
                            assert(!is_wild(ps[k as int]));
                        }
                    }
                }
                v == 0xFFFF_FFFF
            }
        },
    }
}

/// Whether [`partial_overflows`] holds of `s`.
fn partial_overflows_of(s: &Vec<char>) -> (r: bool)
    ensures
        r == partial_overflows(s@),
{
    let cleaned = before_char(s, '+');
    let segs = numeric_segments_of(&cleaned);
    if segs.len() == 0 || !all_digits_of(&segs[0]) {
        return false;
    }
    if segs.len() == 1 {
        segment_number_of(&segs, 0) == 0xFFFF_FFFF
    } else if segs.len() == 2 {
        segment_number_of(&segs, 1) == 0xFFFF_FFFF
    } else {
        false
    }
}

/// Whether [`atom_overflows`] holds of `t`.
fn atom_overflows_of(t: &Vec<char>) -> (r: bool)
    ensures
        r == atom_overflows(t@),
{
    let s = before_char(t, '#');
    proof {
        if s@.len() == 1 {
            assert(s@ =~= seq![s@[0]]);
        }
    }
    if s.len() == 1 && (s[0] == '*' || s[0] == 'x' || s[0] == 'X') {
        return false;
    }
    if s.len() >= 4 && (s[0] == 'd' || s[0] == 'D') && (s[1] == 'e' || s[1] == 'E') && (s[2] == 'v'
        || s[2] == 'V') && s[3] == '-' {
        return false;
    }
    if s.len() > 0 && s[0] == '^' {
        let rest = chars_between(&s, 1, s.len());
        assert(rest@ =~= s@.drop_first());
        return caret_overflows_of(&rest);
    }
    if s.len() > 0 && s[0] == '~' {
        let rest = chars_between(&s, 1, s.len());
        assert(rest@ =~= s@.drop_first());
        return tilde_overflows_of(&rest);
    }
    if s.len() > 0 && (s[0] == '>' || s[0] == '<' || s[0] == '=' || (s.len() > 1 && s[0] == '!'
        && s[1] == '=')) {
        return false;
    }
    let parts = split_chars(&s, '.');
    match first_wild(&parts) {
        Some(_) => wildcard_overflows_of(&s),
        None => partial_overflows_of(&s),
    }
}

/// An atom that has begun at `start` has no other beginning.
proof fn lemma_atom_start_unique(s: Seq<char>, start: int, i: int, j: int)
    requires
        atom_at(s, i, j),
        0 <= start < j,
        forall|k: int| start <= k < j ==> !is_separator(#[trigger] s[k]),
        start == 0 || is_separator(s[start - 1]),
    ensures
        i == start,
{
    if i < start {
        assert(!is_separator(s[start - 1]));
    } else if i > start {
        assert(!is_separator(s[i - 1]));
    }
}

/// Whether `c` separates atoms.
fn separates(c: char) -> (r: bool)
    ensures
        r == is_separator(c),
{
    c == ',' || c == '|' || ('\u{0009}' <= c && c <= '\u{000D}') || c == '\u{0020}' || c == '\u{0085}'
        || c == '\u{00A0}' || c == '\u{1680}' || ('\u{2000}' <= c && c <= '\u{200A}') || c == '\u{2028}'
        || c == '\u{2029}' || c == '\u{202F}' || c == '\u{205F}' || c == '\u{3000}'
}

/// Whether [`range_text_supported`] holds of `text`.
pub fn range_supported(text: &str) -> (r: bool)
    ensures
        r == range_text_supported(text@),
{
    let cs = chars_of(text);
    let ghost t = text@;
    let mut found = false;
    let mut in_run = false;
    let mut start: usize = 0;
    let mut p: usize = 0;
    while p < cs.len()
        invariant
            cs@ == t,
            p <= t.len(),
            in_run ==> {
                &&& start < p
                &&& forall|k: int| start <= k < p ==> !is_separator(#[trigger] t[k])
                &&& start == 0 || is_separator(t[start - 1])
            },
            !in_run ==> p == 0 || is_separator(t[p - 1]),
            found <==> exists|i: int, j: int|
                #[trigger] atom_at(t, i, j) && j < p && atom_overflows(t.subrange(i, j)),
        decreases cs.len() - p,
    {
        let c = cs[p];
        let ghost old_in_run = in_run;
        let ghost old_start = start as int;
        if !separates(c) {
            if !in_run {
                in_run = true;
                start = p;
            }
            assert forall|i: int, j: int|
                #[trigger] atom_at(t, i, j) && j < p + 1 && atom_overflows(t.subrange(i, j)) implies j < p by {
                if j == p {
                    assert(!is_separator(t[p as int]));
                }
            }
        } else {
            if in_run {
                let tok = chars_between(&cs, start, p);
                if atom_overflows_of(&tok) {
                    found = true;
                }
                in_run = false;
                assert(atom_at(t, old_start, p as int));
            }
            assert forall|i: int, j: int| #[trigger] atom_at(t, i, j) && j == p implies old_in_run && i == old_start by {
                if !old_in_run {
                    assert(!is_separator(t[p - 1]));
                } else {
                    lemma_atom_start_unique(t, old_start, i, j);
                }
            }
        }
        p = p + 1;
    }
    if in_run {
        let tok = chars_between(&cs, start, p);
        if atom_overflows_of(&tok) {
            found = true;
        }
        assert(atom_at(t, start as int, p as int));
    }
    assert forall|i: int, j: int| #[trigger] atom_at(t, i, j) && j == p implies in_run && i == start by {
        if !in_run {
            assert(!is_separator(t[p - 1]));
        } else {
            lemma_atom_start_unique(t, start as int, i, j);
        }
    }
    !found
}

} // verus!
