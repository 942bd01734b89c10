//! Character-sequence helpers: digits, numeric values, splitting and
//! whitespace trimming, each with its mathematical definition.
use vstd::prelude::*;

verus! {

/// An ASCII decimal digit.
pub open spec fn is_dec_digit(c: char) -> bool {
    '0' <= c && c <= '9'
}

/// An ASCII hexadecimal digit, either case.
pub open spec fn is_hex_digit(c: char) -> bool {
    is_dec_digit(c) || ('a' <= c && c <= 'f') || ('A' <= c && c <= 'F')
}

/// The numeric value of a hexadecimal (or decimal) digit.
pub open spec fn digit_value(c: char) -> nat {
    if is_dec_digit(c) {
        (c as int - '0' as int) as nat
    } else if 'a' <= c && c <= 'f' {
        (c as int - 'a' as int + 10) as nat
    } else {
        (c as int - 'A' as int + 10) as nat
    }
}

pub open spec fn all_dec(s: Seq<char>) -> bool {
    forall|i: int| 0 <= i < s.len() ==> is_dec_digit(#[trigger] s[i])
}

pub open spec fn all_hex(s: Seq<char>) -> bool {
    forall|i: int| 0 <= i < s.len() ==> is_hex_digit(#[trigger] s[i])
}

/// The value of a sequence of decimal digits, most significant first.
pub open spec fn dec_value(s: Seq<char>) -> nat
    decreases s.len(),
{
    if s.len() == 0 {
        0
    } else {
        dec_value(s.drop_last()) * 10 + digit_value(s.last())
    }
}

/// The value of a sequence of hexadecimal digits, most significant first.
pub open spec fn hex_value(s: Seq<char>) -> nat
    decreases s.len(),
{
    if s.len() == 0 {
        0
    } else {
        hex_value(s.drop_last()) * 16 + digit_value(s.last())
    }
}

/// The pieces of `s` between occurrences of `sep`; there is always one more
/// piece than there are separators, so the empty sequence has one empty piece.
pub open spec fn split(s: Seq<char>, sep: char) -> Seq<Seq<char>>
    decreases s.len(),
{
    if s.len() == 0 {
        seq![Seq::empty()]
    } else {
        let init = split(s.drop_last(), sep);
        if s.last() == sep {
            init.push(Seq::empty())
        } else {
            init.update(init.len() - 1, init.last().push(s.last()))
        }
    }
}

/// Like `split`, but the empty sequence has no pieces at all.
pub open spec fn pieces(s: Seq<char>, sep: char) -> Seq<Seq<char>> {
    if s.len() == 0 {
        Seq::empty()
    } else {
        split(s, sep)
    }
}

/// The first index at or after `from` that holds `c`.
pub open spec fn find_char(s: Seq<char>, c: char, from: int) -> Option<int>
    decreases s.len() - from,
{
    if from < 0 || from >= s.len() {
        None
    } else if s[from] == c {
        Some(from)
    } else {
        find_char(s, c, from + 1)
    }
}

/// Unicode `White_Space`, the characters that `str::trim` removes.
pub open spec fn is_whitespace(c: char) -> bool {
    ||| '\u{9}' <= c && c <= '\u{d}'
    ||| c == ' '
    ||| c == '\u{85}'
    ||| c == '\u{a0}'
    ||| c == '\u{1680}'
    ||| '\u{2000}' <= c && c <= '\u{200a}'
    ||| c == '\u{2028}'
    ||| c == '\u{2029}'
    ||| c == '\u{202f}'
    ||| c == '\u{205f}'
    ||| c == '\u{3000}'
}

pub open spec fn trim_start(s: Seq<char>) -> Seq<char>
    decreases s.len(),
{
    if s.len() > 0 && is_whitespace(s[0]) {
        trim_start(s.drop_first())
    } else {
        s
    }
}

pub open spec fn trim_end(s: Seq<char>) -> Seq<char>
    decreases s.len(),
{
    if s.len() > 0 && is_whitespace(s.last()) {
        trim_end(s.drop_last())
    } else {
        s
    }
}

/// `s` without leading and trailing whitespace.
pub open spec fn trim(s: Seq<char>) -> Seq<char> {
    trim_end(trim_start(s))
}

pub open spec fn views(v: Seq<Vec<char>>) -> Seq<Seq<char>> {
    v.map_values(|p: Vec<char>| p@)
}

// ---------------------------------------------------------------- lemmas

pub proof fn lemma_split_nonempty(s: Seq<char>, sep: char)
    ensures
        split(s, sep).len() >= 1,
    decreases s.len(),
{
    if s.len() > 0 {
        lemma_split_nonempty(s.drop_last(), sep);
    }
}

/// A prefix of a digit sequence never has a larger value.
pub proof fn lemma_dec_value_prefix(s: Seq<char>, i: int)
    requires
        0 <= i <= s.len(),
    ensures
        dec_value(s.take(i)) <= dec_value(s),
    decreases s.len(),
{
    if i < s.len() {
        assert(s.drop_last().take(i) == s.take(i));
        lemma_dec_value_prefix(s.drop_last(), i);
    } else {
        assert(s.take(i) == s);
    }
}

pub open spec fn all_whitespace(s: Seq<char>) -> bool {
    forall|i: int| 0 <= i < s.len() ==> is_whitespace(#[trigger] s[i])
}

proof fn lemma_trim_start_skips_whitespace(w: Seq<char>, x: Seq<char>)
    requires
        all_whitespace(w),
    ensures
        trim_start(w + x) == trim_start(x),
    decreases w.len(),
{
    if w.len() > 0 {
        assert((w + x)[0] == w[0]);
        assert((w + x).drop_first() == w.drop_first() + x);
        lemma_trim_start_skips_whitespace(w.drop_first(), x);
    } else {
        assert(w + x == x);
    }
}

proof fn lemma_trim_end_skips_whitespace(x: Seq<char>, w: Seq<char>)
    requires
        all_whitespace(w),
    ensures
        trim_end(x + w) == trim_end(x),
    decreases w.len(),
{
    if w.len() > 0 {
        assert((x + w).last() == w.last());
        assert((x + w).drop_last() == x + w.drop_last());
        lemma_trim_end_skips_whitespace(x, w.drop_last());
    } else {
        assert(x + w == x);
    }
}

proof fn lemma_trim_start_append(s: Seq<char>, w: Seq<char>)
    requires
        !all_whitespace(s),
    ensures
        trim_start(s + w) == trim_start(s) + w,
    decreases s.len(),
{
    assert(s.len() > 0);
    assert((s + w)[0] == s[0]);
    if is_whitespace(s[0]) {
        assert((s + w).drop_first() == s.drop_first() + w);
        let i = choose|i: int| 0 <= i < s.len() && !is_whitespace(#[trigger] s[i]);
        assert(s.drop_first()[i - 1] == s[i]);
        lemma_trim_start_append(s.drop_first(), w);
    }
}

proof fn lemma_trim_start_all_whitespace(w: Seq<char>)
    requires
        all_whitespace(w),
    ensures
        trim_start(w).len() == 0,
    decreases w.len(),
{
    if w.len() > 0 {
        lemma_trim_start_all_whitespace(w.drop_first());
    }
}

/// Whitespace added around a text does not change what `trim` leaves.
pub proof fn lemma_trim_ignores_padding(w1: Seq<char>, s: Seq<char>, w2: Seq<char>)
    requires
        all_whitespace(w1),
        all_whitespace(w2),
    ensures
        trim(w1 + s + w2) == trim(s),
{
    assert(w1 + s + w2 == w1 + (s + w2));
    lemma_trim_start_skips_whitespace(w1, s + w2);
    if all_whitespace(s) {
        assert(all_whitespace(s + w2));
        lemma_trim_start_all_whitespace(s + w2);
        lemma_trim_start_all_whitespace(s);
        assert(trim_start(s + w2) =~= trim_start(s));
    } else {
        lemma_trim_start_append(s, w2);
        lemma_trim_end_skips_whitespace(trim_start(s), w2);
    }
}

/// A text with no whitespace at either end is its own trim.
pub proof fn lemma_trim_unpadded(s: Seq<char>)
    requires
        s.len() == 0 || (!is_whitespace(s[0]) && !is_whitespace(s.last())),
    ensures
        trim(s) == s,
{
}

/// The pieces joined with `sep` between them.
pub open spec fn join(parts: Seq<Seq<char>>, sep: char) -> Seq<char>
    decreases parts.len(),
{
    if parts.len() == 0 {
        Seq::empty()
    } else if parts.len() == 1 {
        parts[0]
    } else {
        join(parts.drop_last(), sep) + seq![sep] + parts.last()
    }
}

pub open spec fn lacks(s: Seq<char>, c: char) -> bool {
    forall|i: int| 0 <= i < s.len() ==> #[trigger] s[i] != c
}

pub proof fn lemma_split_lacking(y: Seq<char>, sep: char)
    requires
        lacks(y, sep),
    ensures
        split(y, sep) == seq![y],
    decreases y.len(),
{
    if y.len() > 0 {
        assert(lacks(y.drop_last(), sep)) by {
            assert forall|i: int| 0 <= i < y.drop_last().len() implies #[trigger] y.drop_last()[i]
                != sep by {
                assert(y.drop_last()[i] == y[i]);
            }
        }
        lemma_split_lacking(y.drop_last(), sep);
        assert(y[y.len() - 1] != sep);
        assert(y.drop_last().push(y.last()) == y);
    } else {
        assert(y == Seq::<char>::empty());
    }
}

pub proof fn lemma_split_append(s: Seq<char>, sep: char, y: Seq<char>)
    ensures
        split(s + seq![sep] + y, sep) == split(s, sep) + split(y, sep),
    decreases y.len(),
{
    lemma_split_nonempty(s, sep);
    let x = s + seq![sep] + y;
    if y.len() == 0 {
        assert(x.drop_last() == s);
        assert(x.last() == sep);
        assert(split(s, sep).push(Seq::empty()) =~= split(s, sep) + split(y, sep));
    } else {
        let y1 = y.drop_last();
        assert(x.drop_last() == s + seq![sep] + y1);
        assert(x.last() == y.last());
        lemma_split_append(s, sep, y1);
        lemma_split_nonempty(y1, sep);
        let a = split(s, sep);
        let b = split(y1, sep);
        if y.last() == sep {
            assert((a + b).push(Seq::empty()) =~= a + b.push(Seq::empty()));
        } else {
            assert((a + b).update((a + b).len() - 1, (a + b).last().push(y.last())) =~= a + b.update(
                b.len() - 1,
                b.last().push(y.last()),
            ));
        }
    }
}

/// Joining pieces that do not hold the separator and splitting again gives
/// the pieces back.
pub proof fn lemma_split_join(parts: Seq<Seq<char>>, sep: char)
    requires
        parts.len() >= 1,
        forall|i: int| 0 <= i < parts.len() ==> lacks(#[trigger] parts[i], sep),
    ensures
        split(join(parts, sep), sep) == parts,
    decreases parts.len(),
{
    if parts.len() == 1 {
        lemma_split_lacking(parts[0], sep);
        assert(parts =~= seq![parts[0]]);
    } else {
        let init = parts.drop_last();
        assert forall|i: int| 0 <= i < init.len() implies lacks(#[trigger] init[i], sep) by {
            assert(init[i] == parts[i]);
        }
        lemma_split_join(init, sep);
        lemma_split_append(join(init, sep), sep, parts.last());
        lemma_split_lacking(parts.last(), sep);
        assert(init + seq![parts.last()] =~= parts);
    }
}

/// Every character of a join is the separator or a character of a piece
/// satisfying `p`.
pub proof fn lemma_join_chars(parts: Seq<Seq<char>>, sep: char, p: spec_fn(char) -> bool)
    requires
        p(sep),
        forall|i: int, k: int| 0 <= i < parts.len() && 0 <= k < parts[i].len() ==> p(#[trigger] parts[i][k]),
    ensures
        forall|k: int| 0 <= k < join(parts, sep).len() ==> p(#[trigger] join(parts, sep)[k]),
    decreases parts.len(),
{
    if parts.len() == 1 {
        assert forall|k: int| 0 <= k < join(parts, sep).len() implies p(#[trigger] join(parts, sep)[k]) by {
            assert(parts[0][k] == join(parts, sep)[k]);
        }
    } else if parts.len() > 1 {
        let init = parts.drop_last();
        assert forall|i: int, k: int| 0 <= i < init.len() && 0 <= k < init[i].len() implies p(
            #[trigger] init[i][k],
        ) by {
            assert(init[i] == parts[i]);
        }
        lemma_join_chars(init, sep, p);
        let j = join(init, sep);
        let l = parts.last();
        assert forall|k: int| 0 <= k < join(parts, sep).len() implies p(#[trigger] join(parts, sep)[k]) by {
            if k < j.len() {
                assert(join(parts, sep)[k] == j[k]);
            } else if k == j.len() {
                assert(join(parts, sep)[k] == sep);
            } else {
                assert(join(parts, sep)[k] == l[k - j.len() - 1]);
                assert(parts[parts.len() - 1][k - j.len() - 1] == l[k - j.len() - 1]);
            }
        }
    }
}

/// In a join of non-empty pieces without the separator, two separators
/// never stand side by side, and the last character is no separator.
pub proof fn lemma_join_no_double_sep(parts: Seq<Seq<char>>, sep: char)
    requires
        forall|i: int| 0 <= i < parts.len() ==> lacks(#[trigger] parts[i], sep) && parts[i].len() > 0,
    ensures
        forall|k: int| 0 <= k < join(parts, sep).len() - 1 ==> !(#[trigger] join(parts, sep)[k] == sep
            && join(parts, sep)[k + 1] == sep),
        parts.len() > 0 ==> join(parts, sep).len() > 0 && join(parts, sep).last() != sep,
    decreases parts.len(),
{
    if parts.len() == 1 {
        assert(parts[0][parts[0].len() - 1] != sep);
    } else if parts.len() > 1 {
        let init = parts.drop_last();
        assert forall|i: int| 0 <= i < init.len() implies lacks(#[trigger] init[i], sep)
            && init[i].len() > 0 by {
            assert(init[i] == parts[i]);
        }
        lemma_join_no_double_sep(init, sep);
        let j = join(init, sep);
        let l = parts.last();
        let x = join(parts, sep);
        assert(l.len() > 0 && lacks(l, sep));
        assert(x == j + seq![sep] + l);
        assert forall|k: int| 0 <= k < x.len() - 1 implies !(#[trigger] x[k] == sep && x[k + 1] == sep) by {
            if k + 1 < j.len() {
                assert(x[k] == j[k] && x[k + 1] == j[k + 1]);
            } else if k + 1 == j.len() {
                assert(x[k] == j.last());
            } else if k == j.len() {
                assert(x[k + 1] == l[0]);
            } else {
                assert(x[k] == l[k - j.len() - 1]);
            }
        }
        assert(x.last() == l[l.len() - 1]);
    }
}

pub proof fn lemma_find_char_at(s: Seq<char>, c: char, from: int, k: int)
    requires
        0 <= from <= k < s.len(),
        s[k] == c,
        forall|i: int| from <= i < k ==> #[trigger] s[i] != c,
    ensures
        find_char(s, c, from) == Some(k),
    decreases k - from,
{
    if from < k {
        lemma_find_char_at(s, c, from + 1, k);
    }
}

pub proof fn lemma_find_char_none(s: Seq<char>, c: char, from: int)
    requires
        0 <= from,
        forall|i: int| from <= i < s.len() ==> #[trigger] s[i] != c,
    ensures
        find_char(s, c, from) is None,
    decreases s.len() - from,
{
    if from < s.len() {
        lemma_find_char_none(s, c, from + 1);
    }
}

// ---------------------------------------------------------------- exec

pub fn is_dec_digit_char(c: char) -> (b: bool)
    ensures
        b == is_dec_digit(c),
{
    '0' <= c && c <= '9'
}

pub fn is_hex_digit_char(c: char) -> (b: bool)
    ensures
        b == is_hex_digit(c),
{
    ('0' <= c && c <= '9') || ('a' <= c && c <= 'f') || ('A' <= c && c <= 'F')
}

pub fn digit_value_of(c: char) -> (v: u32)
    requires
        is_hex_digit(c),
    ensures
        v == digit_value(c),
        v < 16,
{
    if '0' <= c && c <= '9' {
        (c as u32) - ('0' as u32)
    } else if 'a' <= c && c <= 'f' {
        (c as u32) - ('a' as u32) + 10
    } else {
        (c as u32) - ('A' as u32) + 10
    }
}

pub fn is_whitespace_char(c: char) -> (b: bool)
    ensures
        b == is_whitespace(c),
{
    ('\u{9}' <= c && c <= '\u{d}') || c == ' ' || c == '\u{85}' || c == '\u{a0}' || c
        == '\u{1680}' || ('\u{2000}' <= c && c <= '\u{200a}') || c == '\u{2028}' || c
        == '\u{2029}' || c == '\u{202f}' || c == '\u{205f}' || c == '\u{3000}'
}

/// The characters of `s`, in order.
pub fn chars_of(s: &str) -> (v: Vec<char>)
    ensures
        v@ == s@,
{
    let mut v: Vec<char> = Vec::new();
    for c in it: s.chars()
        invariant
            v@ == it.seq().take(it.index()),
            it.seq() == s@,
    {
        v.push(c);
    }
    v
}

/// The characters of `s` from `a` up to (not including) `b`.
pub fn slice_of(s: &Vec<char>, a: usize, b: usize) -> (r: Vec<char>)
    requires
        a <= b <= s.len(),
    ensures
        r@ == s@.subrange(a as int, b as int),
{
    let mut r: Vec<char> = Vec::new();
    let mut i: usize = a;
    while i < b
        invariant
            a <= i <= b <= s.len(),
            r@ == s@.subrange(a as int, i as int),
        decreases b - i,
    {
        r.push(s[i]);
        i += 1;
    }
    r
}

pub fn all_dec_chars(s: &Vec<char>) -> (b: bool)
    ensures
        b == all_dec(s@),
{
    let mut i: usize = 0;
    while i < s.len()
        invariant
            0 <= i <= s.len(),
            all_dec(s@.take(i as int)),
        decreases s.len() - i,
    {
        if !is_dec_digit_char(s[i]) {
            return false;
        }
        i += 1;
    }
    assert(s@.take(i as int) == s@);
    true
}

/// The value of `p` read as decimal digits, when it is a non-empty run of
/// digits whose value is at most `limit`.
pub fn dec_number(p: &Vec<char>, limit: u64) -> (r: Option<u64>)
    requires
        limit <= u32::MAX,
    ensures
        r == (if p@.len() >= 1 && all_dec(p@) && dec_value(p@) <= limit {
            Some(dec_value(p@) as u64)
        } else {
            None::<u64>
        }),
{
    if p.len() == 0 {
        return None;
    }
    let mut v: u64 = 0;
    let mut i: usize = 0;
    while i < p.len()
        invariant
            0 <= i <= p.len(),
            limit <= u32::MAX,
            all_dec(p@.take(i as int)),
            v == dec_value(p@.take(i as int)),
            v <= limit,
        decreases p.len() - i,
    {
        let c = p[i];
        if !is_dec_digit_char(c) {
            return None;
        }
        let d = digit_value_of(c) as u64;
        assert(p@.take(i + 1).drop_last() == p@.take(i as int));
        assert(p@.take(i + 1).last() == c);
        let nv = v * 10 + d;
        assert(nv == dec_value(p@.take(i + 1)));
        if nv > limit {
            proof {
                if all_dec(p@) {
                    lemma_dec_value_prefix(p@, i + 1);
                }
            }
            return None;
        }
        v = nv;
        i += 1;
    }
    assert(p@.take(i as int) == p@);
    Some(v)
}

/// Cuts `s` at every `sep`.
pub fn split_chars(s: &Vec<char>, sep: char) -> (parts: Vec<Vec<char>>)
    ensures
        views(parts@) == split(s@, sep),
{
    let mut parts: Vec<Vec<char>> = Vec::new();
    let mut cur: Vec<char> = Vec::new();
    let mut i: usize = 0;
    assert(s@.take(0) == Seq::<char>::empty());
    assert(views(parts@).push(cur@) =~= split(s@.take(0), sep));
    while i < s.len()
        invariant
            0 <= i <= s.len(),
            views(parts@).push(cur@) == split(s@.take(i as int), sep),
        decreases s.len() - i,
    {
        let ghost before = views(parts@).push(cur@);
        assert(s@.take(i + 1).drop_last() == s@.take(i as int));
        assert(s@.take(i + 1).last() == s@[i as int]);
        let c = s[i];
        if c == sep {
            parts.push(cur);
            cur = Vec::new();
            assert(views(parts@).push(cur@) =~= before.push(Seq::empty()));
        } else {
            cur.push(c);
            assert(views(parts@).push(cur@) =~= before.update(
                before.len() - 1,
                before.last().push(c),
            ));
        }
        i += 1;
    }
    assert(s@.take(i as int) == s@);
    parts.push(cur);
    parts
}

/// Cuts `s` at every `sep`, with no pieces at all when `s` is empty.
pub fn pieces_chars(s: &Vec<char>, sep: char) -> (parts: Vec<Vec<char>>)
    ensures
        views(parts@) == pieces(s@, sep),
{
    if s.len() == 0 {
        let parts: Vec<Vec<char>> = Vec::new();
        assert(views(parts@) =~= Seq::<Seq<char>>::empty());
        parts
    } else {
        split_chars(s, sep)
    }
}

/// The first index at or after `from` that holds `c`.
pub fn find_char_in(s: &Vec<char>, c: char, from: usize) -> (r: Option<usize>)
    ensures
        match r {
            Some(i) => find_char(s@, c, from as int) == Some(i as int) && from <= i < s@.len()
                && s@[i as int] == c,
            None => find_char(s@, c, from as int) is None,
        },
{
    let mut i: usize = from;
    while i < s.len()
        invariant
            from <= i,
            find_char(s@, c, from as int) == find_char(s@, c, i as int),
        decreases s.len() - i,
    {
        if s[i] == c {
            return Some(i);
        }
        i += 1;
    }
    None
}

/// The bounds of `s` without its leading and trailing whitespace.
pub fn trim_bounds(s: &Vec<char>) -> (r: (usize, usize))
    ensures
        r.0 <= r.1 <= s.len(),
        s@.subrange(r.0 as int, r.1 as int) == trim(s@),
{
    let mut a: usize = 0;
    assert(s@.subrange(0, s@.len() as int) == s@);
    while a < s.len() && is_whitespace_char(s[a])
        invariant
            a <= s.len(),
            trim_start(s@.subrange(a as int, s@.len() as int)) == trim_start(s@),
        decreases s.len() - a,
    {
        assert(s@.subrange(a as int, s@.len() as int).drop_first() == s@.subrange(
            a + 1,
            s@.len() as int,
        ));
        a += 1;
    }
    let ghost t = s@.subrange(a as int, s@.len() as int);
    assert(trim_start(t) == t);
    let mut b: usize = s.len();
    while b > a && is_whitespace_char(s[b - 1])
        invariant
            a <= b <= s.len(),
            t == s@.subrange(a as int, s@.len() as int),
            trim_end(s@.subrange(a as int, b as int)) == trim_end(t),
        decreases b - a,
    {
        assert(s@.subrange(a as int, b as int).drop_last() == s@.subrange(a as int, b - 1));
        b -= 1;
    }
    (a, b)
}

} // verus!
