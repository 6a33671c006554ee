//! Character-level helpers shared by the parsers: whitespace, words, splitting and digits.

use vstd::prelude::*;

verus! {

/// The characters that Unicode classifies as `White_Space`.
pub open spec fn is_space(c: char) -> bool {
    ('\u{9}' <= c && c <= '\u{d}') || c == ' ' || c == '\u{85}' || c == '\u{a0}'
        || c == '\u{1680}' || ('\u{2000}' <= c && c <= '\u{200a}') || c == '\u{2028}'
        || c == '\u{2029}' || c == '\u{202f}' || c == '\u{205f}' || c == '\u{3000}'
}

pub fn is_space_char(c: char) -> (r: bool)
    ensures
        r == is_space(c),
{
    ('\u{9}' <= c && c <= '\u{d}') || c == ' ' || c == '\u{85}' || c == '\u{a0}'
        || c == '\u{1680}' || ('\u{2000}' <= c && c <= '\u{200a}') || c == '\u{2028}'
        || c == '\u{2029}' || c == '\u{202f}' || c == '\u{205f}' || c == '\u{3000}'
}

/// The views of a sequence of strings.
pub open spec fn views(v: Seq<String>) -> Seq<Seq<char>> {
    v.map_values(|w: String| w@)
}

/// The maximal runs of non-space characters of `s`, in order.
pub open spec fn words(s: Seq<char>) -> Seq<Seq<char>>
    decreases s.len(),
{
    if s.len() == 0 {
        seq![]
    } else {
        let prev = s.drop_last();
        let c = s.last();
        let w = words(prev);
        if is_space(c) {
            w
        } else if prev.len() == 0 || is_space(prev.last()) {
            w.push(seq![c])
        } else {
            w.update(w.len() - 1, w.last().push(c))
        }
    }
}

/// Splits `s` into its words.
pub fn split_words(s: &str) -> (r: Vec<String>)
    ensures
        views(r@) == words(s@),
{
    let n = s.unicode_len();
    let mut r: Vec<String> = Vec::new();
    let mut start: usize = 0;
    let mut in_word = false;
    let mut i: usize = 0;
    while i < n
        invariant
            n == s@.len(),
            i <= n,
            start <= i,
            in_word <==> (i > 0 && !is_space(s@[i - 1])),
            in_word ==> start < i,
            in_word ==> words(s@.take(i as int)) == views(r@).push(s@.subrange(start as int, i as int)),
            !in_word ==> words(s@.take(i as int)) == views(r@),
        decreases n - i,
    {
        let c = s.get_char(i);
        proof {
            assert(s@.take(i + 1).drop_last() =~= s@.take(i as int));
            assert(s@.take(i + 1).last() == c);
        }
        if is_space_char(c) {
            if in_word {
                let w = String::from_str(s.substring_char(start, i));
                let ghost before = r@;
                r.push(w);
                assert(views(r@) =~= views(before).push(w@));
                in_word = false;
            }
        } else if !in_word {
            start = i;
            in_word = true;
            assert(s@.subrange(start as int, i + 1) =~= seq![c]);
        } else {
            assert(s@.subrange(start as int, i + 1) =~= s@.subrange(start as int, i as int).push(c));
        }
        i = i + 1;
    }
    assert(s@.take(n as int) =~= s@);
    if in_word {
        let w = String::from_str(s.substring_char(start, n));
        let ghost before = r@;
        r.push(w);
        assert(views(r@) =~= views(before).push(w@));
    }
    r
}


/// `s` without its leading whitespace.
pub open spec fn trim_start(s: Seq<char>) -> Seq<char>
    decreases s.len(),
{
    if s.len() > 0 && is_space(s[0]) {
        trim_start(s.drop_first())
    } else {
        s
    }
}

/// `s` without its trailing whitespace.
pub open spec fn trim_end(s: Seq<char>) -> Seq<char>
    decreases s.len(),
{
    if s.len() > 0 && is_space(s.last()) {
        trim_end(s.drop_last())
    } else {
        s
    }
}

/// `s` without its leading and trailing whitespace.
pub open spec fn trimmed(s: Seq<char>) -> Seq<char> {
    trim_end(trim_start(s))
}

proof fn lemma_words_drop_leading_space(s: Seq<char>)
    requires
        s.len() > 0,
        is_space(s[0]),
    ensures
        words(s) == words(s.drop_first()),
    decreases s.len(),
{
    if s.len() == 1 {
        assert(s.drop_first().len() == 0);
        assert(s.drop_last().len() == 0);
        assert(s.last() == s[0]);
        assert(words(s) == words(s.drop_last()));
    } else {
        let p = s.drop_last();
        assert(p[0] == s[0]);
        lemma_words_drop_leading_space(p);
        let q = s.drop_first();
        assert(q.drop_last() =~= p.drop_first());
        assert(q.last() == s.last());
        assert(q.len() > 0);
        if p.len() == 1 {
            assert(p.last() == s[0]);
            assert(p.drop_first().len() == 0);
        } else {
            assert(p.drop_first().last() == p.last());
        }
        assert(words(q) == {
            let w = words(q.drop_last());
            if is_space(q.last()) {
                w
            } else if q.drop_last().len() == 0 || is_space(q.drop_last().last()) {
                w.push(seq![q.last()])
            } else {
                w.update(w.len() - 1, w.last().push(q.last()))
            }
        });
    }
}

proof fn lemma_words_trim_start(s: Seq<char>)
    ensures
        words(trim_start(s)) == words(s),
    decreases s.len(),
{
    if s.len() > 0 && is_space(s[0]) {
        lemma_words_drop_leading_space(s);
        lemma_words_trim_start(s.drop_first());
    }
}

proof fn lemma_words_trim_end(s: Seq<char>)
    ensures
        words(trim_end(s)) == words(s),
    decreases s.len(),
{
    if s.len() > 0 && is_space(s.last()) {
        lemma_words_trim_end(s.drop_last());
    }
}

/// Trimming a text keeps its words.
pub proof fn lemma_words_trimmed(s: Seq<char>)
    ensures
        words(trimmed(s)) == words(s),
{
    lemma_words_trim_end(trim_start(s));
    lemma_words_trim_start(s);
}

/// Returns `s` without its leading and trailing whitespace.
pub fn trim(s: &str) -> (r: String)
    ensures
        r@ == trimmed(s@),
{
    let n = s.unicode_len();
    let mut lo: usize = 0;
    assert(s@.subrange(0, n as int) =~= s@);
    while lo < n && is_space_char(s.get_char(lo))
        invariant
            n == s@.len(),
            lo <= n,
            trim_start(s@) == trim_start(s@.subrange(lo as int, n as int)),
        decreases n - lo,
    {
        assert(s@.subrange(lo as int, n as int).drop_first() =~= s@.subrange(lo + 1, n as int));
        lo = lo + 1;
    }
    assert(s@.subrange(0, n as int) =~= s@);
    let mut hi: usize = n;
    while hi > lo && is_space_char(s.get_char(hi - 1))
        invariant
            n == s@.len(),
            lo <= hi <= n,
            trim_start(s@) == s@.subrange(lo as int, n as int),
            trimmed(s@) == trim_end(s@.subrange(lo as int, hi as int)),
        decreases hi,
    {
        assert(s@.subrange(lo as int, hi as int).drop_last() =~= s@.subrange(lo as int, hi - 1));
        hi = hi - 1;
    }
    String::from_str(s.substring_char(lo, hi))
}

/// Whether `sep` occurs in `s` at position `i`.
pub open spec fn occurs_at(s: Seq<char>, sep: Seq<char>, i: int) -> bool {
    0 <= i && i + sep.len() <= s.len() && s.subrange(i, i + sep.len()) == sep
}

pub fn occurs_at_index(s: &str, sep: &str, i: usize) -> (r: bool)
    ensures
        r == occurs_at(s@, sep@, i as int),
{
    let n = s.unicode_len();
    let m = sep.unicode_len();
    if m > n || i > n - m {
        return false;
    }
    let mut k: usize = 0;
    while k < m
        invariant
            n == s@.len(),
            m == sep@.len(),
            i + m <= n,
            k <= m,
            forall|j: int| 0 <= j < k ==> s@[i + j] == sep@[j],
        decreases m - k,
    {
        if s.get_char(i + k) != sep.get_char(k) {
            assert(s@.subrange(i as int, i + m)[k as int] != sep@[k as int]);
            return false;
        }
        k = k + 1;
    }
    assert(s@.subrange(i as int, i + m) =~= sep@);
    true
}

/// The pieces of `s` between the occurrences of `sep`, found from left to right without
/// overlap; a string without `sep` is one piece.
pub open spec fn split_on(s: Seq<char>, sep: Seq<char>) -> Seq<Seq<char>>
    decreases s.len(),
{
    if sep.len() == 0 || s.len() < sep.len() {
        seq![s]
    } else if s.take(sep.len() as int) == sep {
        seq![Seq::<char>::empty()] + split_on(s.skip(sep.len() as int), sep)
    } else {
        let r = split_on(s.drop_first(), sep);
        r.update(0, seq![s[0]] + r[0])
    }
}

/// `r` with `p` put before its first piece.
pub open spec fn prefix_first(p: Seq<char>, r: Seq<Seq<char>>) -> Seq<Seq<char>> {
    r.update(0, p + r[0])
}

pub proof fn lemma_split_on_len(s: Seq<char>, sep: Seq<char>)
    ensures
        split_on(s, sep).len() >= 1,
    decreases s.len(),
{
    if sep.len() == 0 || s.len() < sep.len() {
    } else if s.take(sep.len() as int) == sep {
        lemma_split_on_len(s.skip(sep.len() as int), sep);
    } else {
        lemma_split_on_len(s.drop_first(), sep);
    }
}

/// Splits `s` at each occurrence of the non-empty `sep`.
pub fn split_by(s: &str, sep: &str) -> (r: Vec<String>)
    requires
        sep@.len() > 0,
    ensures
        views(r@) == split_on(s@, sep@),
{
    let n = s.unicode_len();
    let m = sep.unicode_len();
    let mut r: Vec<String> = Vec::new();
    let mut start: usize = 0;
    let mut i: usize = 0;
    proof {
        assert(s@.skip(0) =~= s@);
        lemma_split_on_len(s@, sep@);
        assert(s@.subrange(0, 0) + split_on(s@, sep@)[0] =~= split_on(s@, sep@)[0]);
        assert(prefix_first(s@.subrange(0, 0), split_on(s@, sep@)) =~= split_on(s@, sep@));
        assert(views(r@) =~= Seq::<Seq<char>>::empty());
        assert(split_on(s@, sep@) =~= views(r@) + split_on(s@, sep@));
    }
    while i < n && m <= n - i
        invariant
            n == s@.len(),
            m == sep@.len(),
            m > 0,
            start <= i <= n,
            split_on(s@, sep@) == views(r@) + prefix_first(
                s@.subrange(start as int, i as int),
                split_on(s@.skip(i as int), sep@),
            ),
        decreases n - i,
    {
        let ghost t = s@.skip(i as int);
        proof {
            lemma_split_on_len(t, sep@);
            assert(t.take(m as int) =~= s@.subrange(i as int, i + m));
        }
        if occurs_at_index(s, sep, i) {
            let w = String::from_str(s.substring_char(start, i));
            let ghost before = r@;
            r.push(w);
            proof {
                assert(t.skip(m as int) =~= s@.skip(i + m));
                lemma_split_on_len(s@.skip(i + m), sep@);
                assert(views(r@) =~= views(before).push(w@));
                assert(s@.subrange(i + m, i + m) =~= Seq::<char>::empty());
                assert(views(before) + prefix_first(s@.subrange(start as int, i as int), split_on(t, sep@))
                    =~= views(r@) + prefix_first(s@.subrange(i + m, i + m), split_on(s@.skip(i + m), sep@)));
            }
            i = i + m;
            start = i;
        } else {
            proof {
                assert(t.drop_first() =~= s@.skip(i + 1));
                lemma_split_on_len(s@.skip(i + 1), sep@);
                let x = split_on(s@.skip(i + 1), sep@);
                let p = s@.subrange(start as int, i as int);
                assert(split_on(t, sep@) == prefix_first(seq![t[0]], x));
                assert(t[0] == s@[i as int]);
                assert(s@.subrange(start as int, i + 1) =~= p + seq![s@[i as int]]);
                assert(p + (seq![s@[i as int]] + x[0]) =~= (p + seq![s@[i as int]]) + x[0]);
                assert(prefix_first(s@.subrange(start as int, i as int), split_on(t, sep@))
                    =~= prefix_first(s@.subrange(start as int, i + 1), split_on(s@.skip(i + 1), sep@)));
            }
            i = i + 1;
        }
    }
    let w = String::from_str(s.substring_char(start, n));
    let ghost before = r@;
    r.push(w);
    proof {
        assert(split_on(s@.skip(i as int), sep@) == seq![s@.skip(i as int)]);
        assert(s@.subrange(start as int, i as int) + s@.skip(i as int) =~= s@.subrange(start as int, n as int));
        assert(views(r@) =~= views(before).push(w@));
        assert(views(before) + prefix_first(s@.subrange(start as int, i as int), seq![s@.skip(i as int)])
            =~= views(r@));
    }
    r
}


/// `s` without its blank (`' '`) characters.
pub open spec fn without_blanks(s: Seq<char>) -> Seq<char>
    decreases s.len(),
{
    if s.len() == 0 {
        s
    } else if s.last() == ' ' {
        without_blanks(s.drop_last())
    } else {
        without_blanks(s.drop_last()).push(s.last())
    }
}

/// Returns `s` without its blank (`' '`) characters.
pub fn remove_blanks(s: &str) -> (r: String)
    ensures
        r@ == without_blanks(s@),
{
    let n = s.unicode_len();
    let mut r = String::new();
    let mut i: usize = 0;
    while i < n
        invariant
            n == s@.len(),
            i <= n,
            r@ == without_blanks(s@.take(i as int)),
        decreases n - i,
    {
        assert(s@.take(i + 1).drop_last() =~= s@.take(i as int));
        let c = s.get_char(i);
        if c != ' ' {
            let piece = s.substring_char(i, i + 1);
            assert(piece@ =~= seq![c]);
            r.append(piece);
            assert(r@ =~= without_blanks(s@.take(i as int)).push(c));
        }
        i = i + 1;
    }
    assert(s@.take(n as int) =~= s@);
    r
}

pub open spec fn is_digit(c: char) -> bool {
    '0' <= c && c <= '9'
}

pub open spec fn all_digits(s: Seq<char>) -> bool {
    forall|i: int| 0 <= i < s.len() ==> is_digit(#[trigger] s[i])
}

pub open spec fn digit_value(c: char) -> nat {
    ((c as u32) - ('0' as u32)) as nat
}

/// The number that the decimal digits `s` write.
pub open spec fn value_of(s: Seq<char>) -> nat
    decreases s.len(),
{
    if s.len() == 0 {
        0
    } else {
        value_of(s.drop_last()) * 10 + digit_value(s.last())
    }
}

pub open spec fn min_nat(a: nat, b: nat) -> nat {
    if a <= b {
        a
    } else {
        b
    }
}

/// The number that the digits of `s` between `from` and `to` write, or `cap` where that is more.
pub fn digits_value(s: &str, from: usize, to: usize, cap: u64) -> (r: u64)
    requires
        from <= to <= s@.len(),
        all_digits(s@.subrange(from as int, to as int)),
        cap <= 1_000_000_000_000_000_000,
    ensures
        r == min_nat(value_of(s@.subrange(from as int, to as int)), cap as nat),
{
    let mut acc: u64 = 0;
    let mut k: usize = from;
    let ghost t = s@.subrange(from as int, to as int);
    assert(t.take(0) =~= Seq::<char>::empty());
    while k < to
        invariant
            from <= k <= to <= s@.len(),
            t == s@.subrange(from as int, to as int),
            all_digits(t),
            cap <= 1_000_000_000_000_000_000,
            acc == min_nat(value_of(t.take(k - from)), cap as nat),
        decreases to - k,
    {
        let c = s.get_char(k);
        proof {
            assert(t[k - from] == c);
            assert(is_digit(t[k - from]));
            assert(t.take(k - from + 1).drop_last() =~= t.take(k - from));
        }
        let d = (c as u32 - '0' as u32) as u64;
        let ghost v = value_of(t.take(k - from));
        if acc >= cap {
            assert(v * 10 + d >= cap) by (nonlinear_arith)
                requires v >= cap, d >= 0;
        } else {
            assert(acc * 10 + d <= 10_000_000_000_000_000_009) by (nonlinear_arith)
                requires acc < cap, cap <= 1_000_000_000_000_000_000, d <= 9;
            acc = acc * 10 + d;
            if acc > cap {
                acc = cap;
            }
        }
        k = k + 1;
    }
    assert(t.take(to - from) =~= t);
    acc
}

/// What parsing `s` as a `u16` gives: the number its decimal digits write, where `s` is a
/// non-empty run of digits, after one optional `+`, whose number fits.
pub open spec fn parsed_u16(s: Seq<char>) -> Option<u16> {
    let d = unsigned_digits(s);
    if d.len() > 0 && all_digits(d) && value_of(d) <= u16::MAX {
        Some(value_of(d) as u16)
    } else {
        None
    }
}

/// The digits of an unsigned number: the text without one leading `+`, if it has one.
pub open spec fn unsigned_digits(s: Seq<char>) -> Seq<char> {
    if s.len() > 0 && s[0] == '+' {
        s.drop_first()
    } else {
        s
    }
}

/// The index of the first non-digit of `s` at or after `from`, or its length.
pub open spec fn run_end(s: Seq<char>, from: int) -> int
    decreases s.len() - from,
{
    if 0 <= from < s.len() && is_digit(s[from]) {
        run_end(s, from + 1)
    } else {
        from
    }
}

proof fn lemma_run_end(s: Seq<char>, k: int, r: int)
    requires
        0 <= k <= r <= s.len(),
        forall|j: int| k <= j < r ==> is_digit(#[trigger] s[j]),
        r < s.len() ==> !is_digit(s[r]),
    ensures
        run_end(s, k) == r,
    decreases r - k,
{
    if k < r {
        lemma_run_end(s, k + 1, r);
    }
}

/// Returns the index of the first non-digit of `s` at or after `from`, or its length.
pub fn digits_end(s: &str, from: usize) -> (r: usize)
    requires
        from <= s@.len(),
    ensures
        from <= r <= s@.len(),
        r == run_end(s@, from as int),
        all_digits(s@.subrange(from as int, r as int)),
        r < s@.len() ==> !is_digit(s@[r as int]),
{
    let n = s.unicode_len();
    let mut k: usize = from;
    while k < n && '0' <= s.get_char(k) && s.get_char(k) <= '9'
        invariant
            n == s@.len(),
            from <= k <= n,
            all_digits(s@.subrange(from as int, k as int)),
        decreases n - k,
    {
        assert(s@.subrange(from as int, k + 1) =~= s@.subrange(from as int, k as int).push(s@[k as int]));
        k = k + 1;
    }
    proof {
        assert forall|j: int| from <= j < k implies is_digit(#[trigger] s@[j]) by {
            assert(s@.subrange(from as int, k as int)[j - from] == s@[j]);
        }
        lemma_run_end(s@, from as int, k as int);
    }
    k
}

/// Parses `s` as a `u16` written in decimal digits.
pub fn parse_u16(s: &str) -> (r: Option<u16>)
    ensures
        r == parsed_u16(s@),
{
    let n = s.unicode_len();
    let start: usize = if n > 0 && s.get_char(0) == '+' { 1 } else { 0 };
    let ghost d = unsigned_digits(s@);
    assert(d =~= s@.subrange(start as int, n as int));
    let end = digits_end(s, start);
    if end == start || end < n {
        if end < n {
            assert(!is_digit(d[end - start]));
        }
        return None;
    }
    let v = digits_value(s, start, n, 65536);
    if v <= 65535 {
        Some(v as u16)
    } else {
        None
    }
}

/// The character's code, with the ASCII capital letters taken as small ones.
pub open spec fn folded(c: char) -> int {
    if 'A' <= c && c <= 'Z' {
        (c as u32) + 32
    } else {
        (c as u32) as int
    }
}

/// Whether `a` and `b` are the same text but for the case of ASCII letters.
pub open spec fn same_ignoring_case(a: Seq<char>, b: Seq<char>) -> bool {
    a.len() == b.len() && forall|i: int| 0 <= i < a.len() ==> folded(#[trigger] a[i]) == folded(b[i])
}

pub fn eq_ignoring_case(a: &str, b: &str) -> (r: bool)
    ensures
        r == same_ignoring_case(a@, b@),
{
    let n = a.unicode_len();
    if n != b.unicode_len() {
        return false;
    }
    let mut i: usize = 0;
    while i < n
        invariant
            n == a@.len() == b@.len(),
            i <= n,
            forall|j: int| 0 <= j < i ==> folded(#[trigger] a@[j]) == folded(b@[j]),
        decreases n - i,
    {
        let x = a.get_char(i);
        let y = b.get_char(i);
        let fx: u32 = if 'A' <= x && x <= 'Z' { x as u32 + 32 } else { x as u32 };
        let fy: u32 = if 'A' <= y && y <= 'Z' { y as u32 + 32 } else { y as u32 };
        if fx != fy {
            return false;
        }
        i = i + 1;
    }
    true
}

/// Whether `needle` occurs somewhere in `hay`.
pub open spec fn contains_text(hay: Seq<char>, needle: Seq<char>) -> bool {
    exists|i: int| occurs_at(hay, needle, i)
}

pub fn contains(hay: &str, needle: &str) -> (r: bool)
    ensures
        r == contains_text(hay@, needle@),
{
    let n = hay.unicode_len();
    let m = needle.unicode_len();
    if m > n {
        return false;
    }
    if m == 0 {
        assert(hay@.subrange(0, 0) =~= needle@);
        assert(occurs_at(hay@, needle@, 0));
        return true;
    }
    let mut i: usize = 0;
    while i <= n - m
        invariant
            n == hay@.len(),
            m == needle@.len(),
            0 < m <= n,
            i <= n - m + 1,
            forall|j: int| 0 <= j < i ==> !occurs_at(hay@, needle@, j),
        decreases n - m + 1 - i,
    {
        if occurs_at_index(hay, needle, i) {
            return true;
        }
        i = i + 1;
    }
    false
}

} // verus!
