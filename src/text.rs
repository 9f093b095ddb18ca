//! Character-level helpers for the attribute mini-language: whitespace,
//! trimming and splitting, each stated over sequences of characters.

use vstd::prelude::*;

verus! {

/// Unicode's White_Space property.
pub open spec fn is_white_space(c: char) -> bool {
    ||| ('\u{9}' <= c && c <= '\u{d}')
    ||| c == ' '
    ||| c == '\u{85}'
    ||| c == '\u{a0}'
    ||| c == '\u{1680}'
    ||| ('\u{2000}' <= c && c <= '\u{200a}')
    ||| c == '\u{2028}'
    ||| c == '\u{2029}'
    ||| c == '\u{202f}'
    ||| c == '\u{205f}'
    ||| c == '\u{3000}'
}

/// Whether `c` has Unicode's White_Space property.
pub fn white_space(c: char) -> (r: bool)
    ensures
        r == is_white_space(c),
{
    ('\u{9}' <= c && c <= '\u{d}') || c == ' ' || c == '\u{85}' || c == '\u{a0}' || c == '\u{1680}'
        || ('\u{2000}' <= c && c <= '\u{200a}') || c == '\u{2028}' || c == '\u{2029}' || c == '\u{202f}'
        || c == '\u{205f}' || c == '\u{3000}'
}

/// The characters that trimming removes: double quotes where `quotes`
/// holds, white space otherwise.
pub open spec fn trimmed_char(c: char, quotes: bool) -> bool {
    if quotes {
        c == '"'
    } else {
        is_white_space(c)
    }
}

/// `s` without its leading trimmed characters.
pub open spec fn strip_start(s: Seq<char>, quotes: bool) -> Seq<char>
    decreases s.len(),
{
    if s.len() > 0 && trimmed_char(s[0], quotes) {
        strip_start(s.drop_first(), quotes)
    } else {
        s
    }
}

/// `s` without its trailing trimmed characters.
pub open spec fn strip_end(s: Seq<char>, quotes: bool) -> Seq<char>
    decreases s.len(),
{
    if s.len() > 0 && trimmed_char(s.last(), quotes) {
        strip_end(s.drop_last(), quotes)
    } else {
        s
    }
}

/// `s` without leading and trailing white space.
pub open spec fn trim(s: Seq<char>) -> Seq<char> {
    strip_end(strip_start(s, false), false)
}

/// `s` without leading and trailing double quotes.
pub open spec fn trim_quotes(s: Seq<char>) -> Seq<char> {
    strip_end(strip_start(s, true), true)
}

/// The pieces of `s` between the occurrences of `sep`, empty ones included.
pub open spec fn split_on(s: Seq<char>, sep: char) -> Seq<Seq<char>>
    decreases s.len(),
{
    if s.len() == 0 {
        seq![Seq::empty()]
    } else {
        let p = split_on(s.drop_last(), sep);
        if s.last() == sep {
            p.push(Seq::empty())
        } else {
            p.update(p.len() - 1, p.last().push(s.last()))
        }
    }
}

/// The pieces of `s` between the occurrences of the two characters `"; "`,
/// empty ones included.
pub open spec fn split_clauses(s: Seq<char>) -> Seq<Seq<char>>
    decreases s.len(),
{
    if s.len() == 0 {
        seq![Seq::empty()]
    } else {
        let p = split_clauses(s.drop_last());
        let cur = p.last();
        if s.last() == ' ' && cur.len() > 0 && cur.last() == ';' {
            p.update(p.len() - 1, cur.drop_last()).push(Seq::empty())
        } else {
            p.update(p.len() - 1, cur.push(s.last()))
        }
    }
}

/// The clauses of an attribute text: its pieces between `"; "`, less a last
/// piece that is empty.
pub open spec fn clauses(s: Seq<char>) -> Seq<Seq<char>> {
    let p = split_clauses(s);
    if p.last().len() == 0 {
        p.drop_last()
    } else {
        p
    }
}

/// `s` cut at its first space: what stands before it and what follows it.
pub open spec fn split_once_space(s: Seq<char>) -> Option<(Seq<char>, Seq<char>)> {
    let first = split_on(s, ' ')[0];
    if first.len() < s.len() {
        Some((first, s.skip(first.len() as int + 1)))
    } else {
        None
    }
}

/// Splitting always gives at least one piece.
pub proof fn lemma_split_nonempty(s: Seq<char>, sep: char)
    ensures
        split_on(s, sep).len() >= 1,
    decreases s.len(),
{
    if s.len() > 0 {
        lemma_split_nonempty(s.drop_last(), sep);
    }
}

/// A text without the separator is one piece.
pub proof fn lemma_split_single(s: Seq<char>, sep: char)
    requires
        !s.contains(sep),
    ensures
        split_on(s, sep) == seq![s],
    decreases s.len(),
{
    if s.len() > 0 {
        let t = s.drop_last();
        assert(!t.contains(sep)) by {
            if t.contains(sep) {
                let k = t.index_of(sep);
                assert(s[k] == sep);
            }
        }
        lemma_split_single(t, sep);
        assert(s.last() != sep);
        assert(t.push(s.last()) == s);
        assert(seq![t].update(0, t.push(s.last())) =~= seq![s]);
    } else {
        assert(s =~= Seq::<char>::empty());
    }
}

/// Splitting `x`, the separator, then `y` gives the pieces of `x` then those
/// of `y`.
pub proof fn lemma_split_concat(x: Seq<char>, y: Seq<char>, sep: char)
    ensures
        split_on(x + seq![sep] + y, sep) == split_on(x, sep) + split_on(y, sep),
    decreases y.len(),
{
    lemma_split_nonempty(x, sep);
    if y.len() == 0 {
        assert(x + seq![sep] + y == (x + seq![sep] + y).drop_last().push(sep));
        assert((x + seq![sep] + y).drop_last() == x);
        assert(split_on(y, sep) == seq![Seq::<char>::empty()]);
        assert(split_on(x, sep).push(Seq::empty()) == split_on(x, sep) + seq![Seq::<char>::empty()]);
    } else {
        let y2 = y.drop_last();
        lemma_split_concat(x, y2, sep);
        lemma_split_nonempty(y2, sep);
        let s = x + seq![sep] + y;
        assert(s.drop_last() == x + seq![sep] + y2);
        assert(s.last() == y.last());
        let a = split_on(x, sep);
        let b = split_on(y2, sep);
        if y.last() == sep {
            assert((a + b).push(Seq::empty()) == a + b.push(Seq::empty()));
        } else {
            assert((a + b).update((a + b).len() - 1, (a + b).last().push(y.last())) == a + b.update(
                b.len() - 1,
                b.last().push(y.last()),
            ));
        }
    }
}

/// `s` holds no `;` followed by a space.
pub open spec fn no_separator(s: Seq<char>) -> bool {
    forall|i: int| 0 <= i < s.len() - 1 ==> !(#[trigger] s[i] == ';' && s[i + 1] == ' ')
}

proof fn lemma_clauses_nonempty(s: Seq<char>)
    ensures
        split_clauses(s).len() >= 1,
    decreases s.len(),
{
    if s.len() > 0 {
        lemma_clauses_nonempty(s.drop_last());
    }
}

/// A text without the separator `"; "` is one clause.
pub proof fn lemma_clauses_single(s: Seq<char>)
    requires
        no_separator(s),
    ensures
        split_clauses(s) == seq![s],
    decreases s.len(),
{
    if s.len() > 0 {
        let t = s.drop_last();
        assert(no_separator(t)) by {
            assert forall|i: int| 0 <= i < t.len() - 1 implies !(#[trigger] t[i] == ';' && t[i + 1] == ' ') by {
                assert(t[i] == s[i] && t[i + 1] == s[i + 1]);
            }
        }
        lemma_clauses_single(t);
        if s.last() == ' ' && t.len() > 0 {
            assert(s[s.len() - 2] == t.last());
            assert(!(s[s.len() - 2] == ';' && s[s.len() - 1] == ' '));
        }
        assert(t.push(s.last()) == s);
        assert(seq![t].update(0, t.push(s.last())) =~= seq![s]);
    } else {
        assert(s =~= Seq::<char>::empty());
    }
}

/// The clauses of `x`, the separator `"; "`, then `y` are those of `x` then
/// those of `y`.
pub proof fn lemma_clauses_concat(x: Seq<char>, y: Seq<char>)
    ensures
        split_clauses(x + seq![';', ' '] + y) == split_clauses(x) + split_clauses(y),
    decreases y.len(),
{
    lemma_clauses_nonempty(x);
    let xs = x + seq![';'];
    assert(xs.drop_last() == x);
    assert(split_clauses(xs) == split_clauses(x).update(
        split_clauses(x).len() - 1,
        split_clauses(x).last().push(';'),
    ));
    if y.len() == 0 {
        let s = x + seq![';', ' '] + y;
        assert(s.drop_last() =~= xs);
        assert(s.last() == ' ');
        let p = split_clauses(xs);
        assert(p.last() == split_clauses(x).last().push(';'));
        assert(p.last().drop_last() =~= split_clauses(x).last());
        assert(p.update(p.len() - 1, p.last().drop_last()) =~= split_clauses(x));
        assert(split_clauses(y) == seq![Seq::<char>::empty()]);
    } else {
        let y2 = y.drop_last();
        lemma_clauses_concat(x, y2);
        lemma_clauses_nonempty(y2);
        let s = x + seq![';', ' '] + y;
        assert(s.drop_last() =~= x + seq![';', ' '] + y2);
        assert(s.last() == y.last());
        let a = split_clauses(x);
        let b = split_clauses(y2);
        let cur = b.last();
        assert((a + b).last() == cur);
        if y.last() == ' ' && cur.len() > 0 && cur.last() == ';' {
            assert((a + b).update((a + b).len() - 1, cur.drop_last()).push(Seq::empty()) =~= a + b.update(
                b.len() - 1,
                cur.drop_last(),
            ).push(Seq::empty()));
        } else {
            assert((a + b).update((a + b).len() - 1, cur.push(y.last())) =~= a + b.update(
                b.len() - 1,
                cur.push(y.last()),
            ));
        }
    }
}

/// What `split_once_space` finds, where the first space stands at `k`.
pub proof fn lemma_split_once_at(s: Seq<char>, k: int)
    requires
        0 <= k <= s.len(),
        forall|j: int| 0 <= j < k ==> s[j] != ' ',
        k < s.len() ==> s[k] == ' ',
    ensures
        split_once_space(s) == if k < s.len() {
            Some((s.take(k), s.skip(k + 1)))
        } else {
            None::<(Seq<char>, Seq<char>)>
        },
{
    let x = s.take(k);
    assert(!x.contains(' ')) by {
        if x.contains(' ') {
            let j = x.index_of(' ');
            assert(s[j] == ' ');
        }
    }
    lemma_split_single(x, ' ');
    if k < s.len() {
        let y = s.skip(k + 1);
        assert(s == x + seq![' '] + y);
        lemma_split_concat(x, y, ' ');
    } else {
        assert(x == s);
    }
}

/// Relies on `String::push`: it appends the one character to the string.
#[verifier::external_body]
fn push_char(s: &mut String, c: char)
    ensures
        final(s)@ == old(s)@.push(c),
{
    s.push(c);
}

/// Appends the characters `v` to `s`.
pub fn push_chars(s: &mut String, v: &Vec<char>)
    ensures
        final(s)@ == old(s)@ + v@,
{
    let mut i: usize = 0;
    while i < v.len()
        invariant
            i <= v@.len(),
            s@ == old(s)@ + v@.take(i as int),
        decreases v@.len() - i,
    {
        push_char(s, v[i]);
        i = i + 1;
        assert(s@ =~= old(s)@ + v@.take(i as int));
    }
    assert(v@.take(v@.len() as int) =~= v@);
}

/// The string of the characters `v`.
pub fn string_of(v: &Vec<char>) -> (r: String)
    ensures
        r@ == v@,
{
    let mut s = String::new();
    push_chars(&mut s, v);
    assert(s@ =~= v@);
    s
}

/// Whether `a` and `b` hold the same characters.
pub fn same_chars(a: &Vec<char>, b: &Vec<char>) -> (r: bool)
    ensures
        r == (a@ == b@),
{
    if a.len() != b.len() {
        return false;
    }
    let mut i: usize = 0;
    while i < a.len()
        invariant
            a@.len() == b@.len(),
            i <= a@.len(),
            forall|j: int| 0 <= j < i ==> a@[j] == b@[j],
        decreases a@.len() - i,
    {
        if a[i] != b[i] {
            return false;
        }
        i = i + 1;
    }
    assert(a@ =~= b@);
    true
}

/// The pieces of `s` between the occurrences of `sep`, as `split_on` says.
pub fn split_chars(s: &Vec<char>, sep: char) -> (r: Vec<Vec<char>>)
    ensures
        r@.len() == split_on(s@, sep).len(),
        forall|j: int| 0 <= j < r@.len() ==> #[trigger] r@[j]@ == split_on(s@, sep)[j],
{
    let mut done: Vec<Vec<char>> = Vec::new();
    let mut cur: Vec<char> = Vec::new();
    let ghost mut pieces: Seq<Seq<char>> = Seq::empty();
    let mut i: usize = 0;
    assert(s@.take(0) =~= Seq::<char>::empty());
    while i < s.len()
        invariant
            i <= s@.len(),
            split_on(s@.take(i as int), sep) == pieces.push(cur@),
            done@.len() == pieces.len(),
            forall|j: int| 0 <= j < done@.len() ==> #[trigger] done@[j]@ == pieces[j],
        decreases s@.len() - i,
    {
        let c = s[i];
        assert(s@.take(i + 1).drop_last() =~= s@.take(i as int));
        assert(s@.take(i + 1).last() == c);
        if c == sep {
            proof {
                pieces = pieces.push(cur@);
            }
            done.push(cur);
            cur = Vec::new();
            assert(pieces.push(Seq::<char>::empty()) =~= pieces.push(cur@));
        } else {
            let ghost before = cur@;
            cur.push(c);
            assert(pieces.push(before).update(pieces.len() as int, before.push(c)) =~= pieces.push(cur@));
        }
        i = i + 1;
    }
    assert(s@.take(s@.len() as int) =~= s@);
    done.push(cur);
    done
}

/// The characters of `s`.
pub fn chars_of(s: &str) -> (r: Vec<char>)
    ensures
        r@ == s@,
{
    let n = s.unicode_len();
    let mut r: Vec<char> = Vec::new();
    let mut i: usize = 0;
    while i < n
        invariant
            n == s@.len(),
            i <= n,
            r@ == s@.take(i as int),
        decreases n - i,
    {
        r.push(s.get_char(i));
        i = i + 1;
        assert(r@ =~= s@.take(i as int));
    }
    assert(r@ =~= s@);
    r
}

/// The characters `s[from..to]`.
pub fn slice_chars(s: &Vec<char>, from: usize, to: usize) -> (r: Vec<char>)
    requires
        from <= to <= s@.len(),
    ensures
        r@ == s@.subrange(from as int, to as int),
{
    let mut r: Vec<char> = Vec::new();
    let mut k: usize = from;
    while k < to
        invariant
            from <= k <= to <= s@.len(),
            r@ == s@.subrange(from as int, k as int),
        decreases to - k,
    {
        r.push(s[k]);
        k = k + 1;
        assert(r@ =~= s@.subrange(from as int, k as int));
    }
    r
}

fn is_trimmed(c: char, quotes: bool) -> (r: bool)
    ensures
        r == trimmed_char(c, quotes),
{
    if quotes {
        c == '"'
    } else {
        white_space(c)
    }
}

fn strip_chars(s: &Vec<char>, quotes: bool) -> (r: Vec<char>)
    ensures
        r@ == strip_end(strip_start(s@, quotes), quotes),
{
    let mut lo: usize = 0;
    assert(s@.skip(0) =~= s@);
    while lo < s.len() && is_trimmed(s[lo], quotes)
        invariant
            lo <= s@.len(),
            strip_start(s@, quotes) == strip_start(s@.skip(lo as int), quotes),
        decreases s@.len() - lo,
    {
        assert(s@.skip(lo as int).drop_first() =~= s@.skip(lo + 1));
        lo = lo + 1;
    }
    assert(strip_start(s@.skip(lo as int), quotes) == s@.skip(lo as int));
    let mut hi: usize = s.len();
    while hi > lo && is_trimmed(s[hi - 1], quotes)
        invariant
            lo <= hi <= s@.len(),
            strip_end(s@.subrange(lo as int, s@.len() as int), quotes) == strip_end(
                s@.subrange(lo as int, hi as int),
                quotes,
            ),
        decreases hi,
    {
        assert(s@.subrange(lo as int, hi as int).drop_last() =~= s@.subrange(lo as int, hi - 1));
        hi = hi - 1;
    }
    assert(s@.skip(lo as int) =~= s@.subrange(lo as int, s@.len() as int));
    slice_chars(s, lo, hi)
}

/// `s` without leading and trailing white space.
pub fn trim_chars(s: &Vec<char>) -> (r: Vec<char>)
    ensures
        r@ == trim(s@),
{
    strip_chars(s, false)
}

/// `s` without leading and trailing double quotes.
pub fn trim_quote_chars(s: &Vec<char>) -> (r: Vec<char>)
    ensures
        r@ == trim_quotes(s@),
{
    strip_chars(s, true)
}

/// `s` cut at its first space, as `split_once_space` says.
pub fn split_once_space_chars(s: &Vec<char>) -> (r: Option<(Vec<char>, Vec<char>)>)
    ensures
        match r {
            Some((a, b)) => split_once_space(s@) == Some((a@, b@)),
            None => split_once_space(s@) is None,
        },
{
    let mut k: usize = 0;
    while k < s.len() && s[k] != ' '
        invariant
            k <= s@.len(),
            forall|j: int| 0 <= j < k ==> s@[j] != ' ',
        decreases s@.len() - k,
    {
        k = k + 1;
    }
    proof {
        lemma_split_once_at(s@, k as int);
    }
    if k < s.len() {
        let a = slice_chars(s, 0, k);
        let b = slice_chars(s, k + 1, s.len());
        assert(a@ == s@.take(k as int));
        assert(b@ == s@.skip(k + 1));
        Some((a, b))
    } else {
        None
    }
}

} // verus!
