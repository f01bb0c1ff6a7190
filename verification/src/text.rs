//! Text as sequences of characters: whitespace, trimming, splitting and
//! comparing.
use vstd::prelude::*;

verus! {

/// The characters with the Unicode `White_Space` property.
pub open spec fn is_ws(c: char) -> bool {
    ('\u{9}' <= c && c <= '\u{d}') || c == ' ' || c == '\u{85}' || c == '\u{a0}' || c == '\u{1680}'
        || ('\u{2000}' <= c && c <= '\u{200a}') || c == '\u{2028}' || c == '\u{2029}' || c
        == '\u{202f}' || c == '\u{205f}' || c == '\u{3000}'
}

/// Whether `c` is whitespace.
pub fn is_whitespace(c: char) -> (b: bool)
    ensures
        b == is_ws(c),
{
    ('\u{9}' <= c && c <= '\u{d}') || c == ' ' || c == '\u{85}' || c == '\u{a0}' || c == '\u{1680}'
        || ('\u{2000}' <= c && c <= '\u{200a}') || c == '\u{2028}' || c == '\u{2029}' || c
        == '\u{202f}' || c == '\u{205f}' || c == '\u{3000}'
}

/// `s` without its leading whitespace.
pub open spec fn trim_start_spec(s: Seq<char>) -> Seq<char>
    decreases s.len(),
{
    if s.len() > 0 && is_ws(s[0]) {
        trim_start_spec(s.drop_first())
    } else {
        s
    }
}

/// `s` without its trailing characters that satisfy `p`.
pub open spec fn trim_end_by(s: Seq<char>, p: spec_fn(char) -> bool) -> Seq<char>
    decreases s.len(),
{
    if s.len() > 0 && p(s.last()) {
        trim_end_by(s.drop_last(), p)
    } else {
        s
    }
}

/// `s` without its leading and trailing whitespace.
pub open spec fn trim_spec(s: Seq<char>) -> Seq<char> {
    trim_end_by(trim_start_spec(s), |c: char| is_ws(c))
}

/// The characters of `s` from `lo` up to `hi`.
pub fn copy_chars(s: &[char], lo: usize, hi: usize) -> (r: Vec<char>)
    requires
        lo <= hi <= s@.len(),
    ensures
        r@ == s@.subrange(lo as int, hi as int),
{
    let mut r: Vec<char> = Vec::new();
    let mut i = lo;
    while i < hi
        invariant
            lo <= i <= hi <= s@.len(),
            r@ == s@.subrange(lo as int, i as int),
        decreases hi - i,
    {
        r.push(s[i]);
        i = i + 1;
        assert(r@ =~= s@.subrange(lo as int, i as int));
    }
    r
}

/// Appends the characters of `s` to `out`.
pub fn append_chars(out: &mut Vec<char>, s: &[char])
    ensures
        final(out)@ == old(out)@ + s@,
{
    let mut i: usize = 0;
    while i < s.len()
        invariant
            i <= s@.len(),
            out@ == old(out)@ + s@.subrange(0, i as int),
        decreases s@.len() - i,
    {
        out.push(s[i]);
        i = i + 1;
        assert(out@ =~= old(out)@ + s@.subrange(0, i as int));
    }
    assert(s@.subrange(0, s@.len() as int) =~= s@);
}

/// `s` without its leading and trailing whitespace.
pub fn trim(s: &[char]) -> (r: Vec<char>)
    ensures
        r@ == trim_spec(s@),
{
    let mut lo: usize = 0;
    assert(s@.subrange(0, s@.len() as int) =~= s@);
    while lo < s.len() && is_whitespace(s[lo])
        invariant
            lo <= s@.len(),
            trim_start_spec(s@) == trim_start_spec(s@.subrange(lo as int, s@.len() as int)),
        decreases s@.len() - lo,
    {
        assert(s@.subrange(lo as int, s@.len() as int).drop_first() =~= s@.subrange(
            lo + 1,
            s@.len() as int,
        ));
        lo = lo + 1;
    }
    assert(s@.subrange(0, s@.len() as int) =~= s@);
    let ghost start = s@.subrange(lo as int, s@.len() as int);
    assert(trim_start_spec(start) == start);
    let mut hi: usize = s.len();
    while hi > lo && is_whitespace(s[hi - 1])
        invariant
            lo <= hi <= s@.len(),
            trim_spec(s@) == trim_end_by(
                s@.subrange(lo as int, hi as int),
                |c: char| is_ws(c),
            ),
        decreases hi,
    {
        assert(s@.subrange(lo as int, hi as int).drop_last() =~= s@.subrange(
            lo as int,
            hi - 1,
        ));
        hi = hi - 1;
    }
    copy_chars(s, lo, hi)
}

/// `s` without the copies of `c` at its end.
pub fn trim_end_char(s: &[char], c: char) -> (r: Vec<char>)
    ensures
        r@ == trim_end_by(s@, |x: char| x == c),
{
    let mut hi: usize = s.len();
    assert(s@.subrange(0, s@.len() as int) =~= s@);
    while hi > 0 && s[hi - 1] == c
        invariant
            hi <= s@.len(),
            trim_end_by(s@, |x: char| x == c) == trim_end_by(
                s@.subrange(0, hi as int),
                |x: char| x == c,
            ),
        decreases hi,
    {
        assert(s@.subrange(0, hi as int).drop_last() =~= s@.subrange(0, hi - 1));
        hi = hi - 1;
    }
    copy_chars(s, 0, hi)
}

/// The pieces of `s` between the separators `sep` (as many as there are
/// separators, plus one; empty pieces included).
pub open spec fn split_spec(s: Seq<char>, sep: char) -> Seq<Seq<char>>
    decreases s.len(),
{
    if s.len() == 0 {
        seq![Seq::<char>::empty()]
    } else {
        let r = split_spec(s.drop_last(), sep);
        if s.last() == sep {
            r.push(Seq::<char>::empty())
        } else {
            r.update(r.len() - 1, r.last().push(s.last()))
        }
    }
}

pub proof fn lemma_split_spec_len(s: Seq<char>, sep: char)
    ensures
        split_spec(s, sep).len() >= 1,
    decreases s.len(),
{
    if s.len() > 0 {
        lemma_split_spec_len(s.drop_last(), sep);
    }
}

/// How many leading whitespace characters `s` has.
proof fn lemma_trim_start_cut(s: Seq<char>) -> (a: int)
    ensures
        0 <= a <= s.len(),
        trim_start_spec(s) == s.subrange(a, s.len() as int),
        forall|i: int| 0 <= i < a ==> is_ws(#[trigger] s[i]),
        a < s.len() ==> !is_ws(s[a]),
    decreases s.len(),
{
    if s.len() > 0 && is_ws(s[0]) {
        let a1 = lemma_trim_start_cut(s.drop_first());
        assert(s.drop_first().subrange(a1, s.drop_first().len() as int) =~= s.subrange(
            a1 + 1,
            s.len() as int,
        ));
        assert forall|i: int| 0 <= i < a1 + 1 implies is_ws(#[trigger] s[i]) by {
            if i > 0 {
                assert(s[i] == s.drop_first()[i - 1]);
            }
        }
        a1 + 1
    } else {
        assert(s.subrange(0, s.len() as int) =~= s);
        0
    }
}

/// How long `s` is without the trailing characters that satisfy `p`.
proof fn lemma_trim_end_cut(s: Seq<char>, p: spec_fn(char) -> bool) -> (b: int)
    ensures
        0 <= b <= s.len(),
        trim_end_by(s, p) == s.subrange(0, b),
        forall|i: int| b <= i < s.len() ==> p(#[trigger] s[i]),
        b > 0 ==> !p(s[b - 1]),
    decreases s.len(),
{
    if s.len() > 0 && p(s.last()) {
        let b1 = lemma_trim_end_cut(s.drop_last(), p);
        assert(s.drop_last().subrange(0, b1) =~= s.subrange(0, b1));
        assert forall|i: int| b1 <= i < s.len() implies p(#[trigger] s[i]) by {
            if i < s.len() - 1 {
                assert(s[i] == s.drop_last()[i]);
            }
        }
        b1
    } else {
        assert(s.subrange(0, s.len() as int) =~= s);
        s.len() as int
    }
}

/// Law: trimming takes off exactly the whitespace at both ends.  The
/// result is a stretch `s[a..b]` of `s`; everything before `a` and from `b`
/// on is whitespace, and the result neither starts nor ends with
/// whitespace.
pub proof fn law_trim_cuts_whitespace_ends(s: Seq<char>)
    ensures
        exists|a: int, b: int|
            0 <= a <= b <= s.len() && trim_spec(s) == s.subrange(a, b) && (forall|i: int|
                0 <= i < a ==> is_ws(#[trigger] s[i])) && (forall|i: int|
                b <= i < s.len() ==> is_ws(#[trigger] s[i])),
        trim_spec(s).len() > 0 ==> !is_ws(trim_spec(s)[0]) && !is_ws(
            trim_spec(s)[trim_spec(s).len() - 1],
        ),
{
    let a = lemma_trim_start_cut(s);
    let t = trim_start_spec(s);
    let p = |c: char| is_ws(c);
    let b0 = lemma_trim_end_cut(t, p);
    let b = a + b0;
    assert(t.subrange(0, b0) =~= s.subrange(a, b));
    assert forall|i: int| b <= i < s.len() implies is_ws(#[trigger] s[i]) by {
        assert(s[i] == t[i - a]);
        assert(p(t[i - a]));
    }
    if trim_spec(s).len() > 0 {
        assert(trim_spec(s)[0] == s[a]);
        assert(trim_spec(s)[trim_spec(s).len() - 1] == t[b0 - 1]);
    }
}

/// The pieces joined again, with `sep` between neighbours.
pub open spec fn join_pieces(pieces: Seq<Seq<char>>, sep: char) -> Seq<char>
    decreases pieces.len(),
{
    if pieces.len() == 0 {
        Seq::empty()
    } else if pieces.len() == 1 {
        pieces[0]
    } else {
        join_pieces(pieces.drop_last(), sep).push(sep) + pieces.last()
    }
}

/// Law: splitting cuts at every separator and nowhere else.  The pieces
/// hold no separator, and joined with it between neighbours they give back
/// `s`.
pub proof fn law_split_joins_back(s: Seq<char>, sep: char)
    ensures
        split_spec(s, sep).len() >= 1,
        join_pieces(split_spec(s, sep), sep) == s,
        forall|k: int, i: int|
            0 <= k < split_spec(s, sep).len() && 0 <= i < split_spec(s, sep)[k].len()
                ==> #[trigger] split_spec(s, sep)[k][i] != sep,
    decreases s.len(),
{
    lemma_split_spec_len(s, sep);
    if s.len() == 0 {
    } else {
        let d = s.drop_last();
        let r = split_spec(d, sep);
        law_split_joins_back(d, sep);
        let c = s.last();
        if c == sep {
            let q = r.push(Seq::<char>::empty());
            assert(q.drop_last() =~= r);
            assert(join_pieces(q, sep) =~= d.push(sep));
            assert(s =~= d.push(sep));
            assert forall|k: int, i: int|
                0 <= k < q.len() && 0 <= i < q[k].len() implies #[trigger] q[k][i] != sep by {
                assert(q[k] == r[k]);
            }
        } else {
            let q = r.update(r.len() - 1, r.last().push(c));
            if r.len() == 1 {
                assert(join_pieces(q, sep) == q[0]);
                assert(q[0] =~= d.push(c));
            } else {
                assert(q.drop_last() =~= r.drop_last());
                assert(join_pieces(r, sep) == join_pieces(r.drop_last(), sep).push(sep) + r.last());
                assert(join_pieces(q, sep) =~= join_pieces(r, sep).push(c));
            }
            assert(s =~= d.push(c));
            assert forall|k: int, i: int|
                0 <= k < q.len() && 0 <= i < q[k].len() implies #[trigger] q[k][i] != sep by {
                if k < r.len() - 1 {
                    assert(q[k] == r[k]);
                } else {
                    if i < r.last().len() {
                        assert(q[k][i] == r[r.len() - 1][i]);
                    }
                }
            }
        }
    }
}

/// The non-empty pieces among `pieces`, in order.
pub open spec fn nonempty_pieces(pieces: Seq<Seq<char>>) -> Seq<Seq<char>>
    decreases pieces.len(),
{
    if pieces.len() == 0 {
        pieces
    } else {
        let r = nonempty_pieces(pieces.drop_last());
        if pieces.last().len() > 0 {
            r.push(pieces.last())
        } else {
            r
        }
    }
}

/// Law: `nonempty_pieces` keeps exactly the non-empty pieces, in order.
pub proof fn law_nonempty_pieces_filters(pieces: Seq<Seq<char>>)
    ensures
        nonempty_pieces(pieces) == pieces.filter(|p: Seq<char>| p.len() > 0),
    decreases pieces.len(),
{
    reveal(Seq::filter);
    let pred = |p: Seq<char>| p.len() > 0;
    if pieces.len() > 0 {
        law_nonempty_pieces_filters(pieces.drop_last());
        assert(pieces.filter(pred) == if pred(pieces.last()) {
            pieces.drop_last().filter(pred).push(pieces.last())
        } else {
            pieces.drop_last().filter(pred)
        });
    } else {
        assert(pieces.filter(pred) == pieces);
    }
}

/// The views of a vector of strings.
pub open spec fn views(v: Seq<Vec<char>>) -> Seq<Seq<char>> {
    v.map_values(|x: Vec<char>| x@)
}

/// The pieces of `s` between the separators `sep`.
pub fn split(s: &[char], sep: char) -> (r: Vec<Vec<char>>)
    ensures
        views(r@) == split_spec(s@, sep),
{
    let mut pieces: Vec<Vec<char>> = Vec::new();
    let mut cur: Vec<char> = Vec::new();
    let mut i: usize = 0;
    assert(s@.subrange(0, 0) =~= Seq::<char>::empty());
    assert(views(pieces@).push(cur@) =~= split_spec(s@.subrange(0, 0), sep));
    while i < s.len()
        invariant
            i <= s@.len(),
            views(pieces@).push(cur@) == split_spec(s@.subrange(0, i as int), sep),
        decreases s@.len() - i,
    {
        let ghost prefix = s@.subrange(0, i + 1);
        assert(prefix.drop_last() =~= s@.subrange(0, i as int));
        assert(prefix.last() == s@[i as int]);
        proof {
            lemma_split_spec_len(s@.subrange(0, i as int), sep);
        }
        if s[i] == sep {
            let ghost pv = pieces@;
            let done = cur;
            pieces.push(done);
            cur = Vec::new();
            assert(views(pieces@) =~= views(pv).push(done@));
            assert(views(pieces@).push(cur@) =~= split_spec(prefix, sep));
        } else {
            let ghost before = cur@;
            cur.push(s[i]);
            assert(views(pieces@).push(cur@) =~= split_spec(prefix, sep));
        }
        i = i + 1;
    }
    assert(s@.subrange(0, s@.len() as int) =~= s@);
    pieces.push(cur);
    assert(views(pieces@) =~= split_spec(s@, sep));
    pieces
}

/// The non-empty pieces of `s` between the separators `sep`.
pub fn split_nonempty(s: &[char], sep: char) -> (r: Vec<Vec<char>>)
    ensures
        views(r@) == nonempty_pieces(split_spec(s@, sep)),
{
    let pieces = split(s, sep);
    let mut out: Vec<Vec<char>> = Vec::new();
    let mut i: usize = 0;
    let ghost all = split_spec(s@, sep);
    assert(all.subrange(0, 0) =~= Seq::<Seq<char>>::empty());
    while i < pieces.len()
        invariant
            i <= pieces@.len(),
            views(pieces@) == all,
            views(out@) == nonempty_pieces(all.subrange(0, i as int)),
        decreases pieces@.len() - i,
    {
        assert(all.subrange(0, i + 1).drop_last() =~= all.subrange(0, i as int));
        assert(all.subrange(0, i + 1).last() == pieces@[i as int]@);
        if pieces[i].len() > 0 {
            let p = copy_chars(pieces[i].as_slice(), 0, pieces[i].len());
            assert(p@ =~= pieces@[i as int]@);
            out.push(p);
            assert(views(out@) =~= nonempty_pieces(all.subrange(0, i as int)).push(p@));
        }
        i = i + 1;
    }
    assert(all.subrange(0, pieces@.len() as int) =~= all);
    out
}

/// Whether `a` and `b` hold the same characters.
pub fn chars_eq(a: &[char], b: &[char]) -> (same: bool)
    ensures
        same == (a@ == b@),
{
    if a.len() != b.len() {
        return false;
    }
    let mut i: usize = 0;
    while i < a.len()
        invariant
            i <= a@.len(),
            a@.len() == b@.len(),
            forall|j: int| 0 <= j < i ==> a@[j] == b@[j],
        decreases a@.len() - i,
    {
        if a[i] != b[i] {
            return false;
        }
        i = i + 1;
    }
    assert(a@ =~= b@);
    true
}

/// The decimal digits of `n`, as characters.
pub open spec fn decimal_chars(n: nat) -> Seq<char>
    decreases n,
{
    if n < 10 {
        seq![((48 + n) as u8) as char]
    } else {
        decimal_chars(n / 10).push(((48 + n % 10) as u8) as char)
    }
}

/// The number that the decimal digit characters `s` (most significant
/// first) are read as.
pub open spec fn numeral_chars_value(s: Seq<char>) -> int
    decreases s.len(),
{
    if s.len() == 0 {
        0
    } else {
        numeral_chars_value(s.drop_last()) * 10 + (s.last() as int - 48)
    }
}

/// Law: `decimal_chars(n)` is the decimal numeral of `n`: at least one
/// digit, only digits, no leading zero (but for 0 itself), and read back it
/// gives `n`.
pub proof fn law_decimal_chars_is_numeral(n: nat)
    ensures
        decimal_chars(n).len() >= 1,
        forall|i: int|
            0 <= i < decimal_chars(n).len() ==> '0' <= #[trigger] decimal_chars(n)[i] <= '9',
        decimal_chars(n)[0] == '0' ==> n == 0,
        numeral_chars_value(decimal_chars(n)) == n,
    decreases n,
{
    if n >= 10 {
        law_decimal_chars_is_numeral(n / 10);
        let d = decimal_chars(n);
        let h = decimal_chars(n / 10);
        assert(d == h.push(((48 + n % 10) as u8) as char));
        assert(d.drop_last() =~= h);
        assert(d[0] == h[0]);
        assert(n == (n / 10) * 10 + n % 10) by (nonlinear_arith);
        assert((((48 + n % 10) as u8) as char) as int == 48 + n % 10);
        assert(numeral_chars_value(d) == numeral_chars_value(h) * 10 + (d.last() as int - 48));
        assert forall|i: int| 0 <= i < d.len() implies '0' <= #[trigger] d[i] <= '9' by {
            if i < h.len() {
                assert(d[i] == h[i]);
            }
        }
    } else {
        let d = decimal_chars(n);
        assert(d.drop_last() =~= Seq::<char>::empty());
        assert((((48 + n) as u8) as char) as int == 48 + n);
        assert(numeral_chars_value(d) == numeral_chars_value(d.drop_last()) * 10 + (d.last() as int
            - 48));
    }
}

/// Appends the decimal digits of `n` to `out`.
pub fn push_decimal_chars(out: &mut Vec<char>, n: usize)
    ensures
        final(out)@ == old(out)@ + decimal_chars(n as nat),
    decreases n,
{
    if n >= 10 {
        push_decimal_chars(out, n / 10);
    }
    let d: u8 = 48u8 + (n % 10) as u8;
    out.push(d as char);
    assert(final(out)@ =~= old(out)@ + decimal_chars(n as nat));
}

} // verus!
