//! Reading the path out of an HTTP request, choosing how a request is
//! answered, and the bytes of the responses.
use vstd::prelude::*;
use vstd::string::StringSliceAdditionalSpecFns;

verus! {

/// The header of a response that carries a file.
pub const STATIC_FILE_HEADER: &'static str =
    "HTTP/1.1 200 OK\r\nContent-Type: application/octet-stream; charset=UTF-8\r\n\r\n";

/// The header of a response that carries a page.
pub const PAGE_HEADER: &'static str = "HTTP/1.1 200 OK\r\nContent-Type: text/html; charset=UTF-8\r\n\r\n";

/// The header of a page with server-side includes.
pub const SSI_PAGE_HEADER: &'static str = "HTTP/1.1 200 OK\r\nContent-Type: text/html; charset=utf-8\r\n\r\n";

/// The default page, up to the visitor count.
pub const DEFAULT_PAGE_HEAD: &'static str = "HTTP/1.1 200 OK\r\nContent-Type: text/html; charset=UTF-8\r\n\r\n\n             <doctype !html><html><head><title>Hello, Rust!</title>\n             <style>body { background-color: #111; color: #FFEEAA }\n                    h1 { font-size:2cm; text-align: center; color: black; text-shadow: 0 0 4mm red}\n                    h2 { font-size:2cm; text-align: center; color: black; text-shadow: 0 0 4mm green}\n             </style></head>\n             <body>\n             <h1>Greetings, Krusty!</h1>\n             <h2>Visitor count: ";

/// The default page, after the visitor count.
pub const DEFAULT_PAGE_TAIL: &'static str = "</h2>\n             </body></html>\r\n";

/// The byte of a space.
pub const SPACE: u8 = 32;

/// The first position at or after `from` where `s` holds `c`, or the
/// length of `s` when there is none.
pub open spec fn first_index_from(s: Seq<u8>, c: u8, from: int) -> int
    decreases s.len() - from,
{
    if from >= s.len() {
        s.len() as int
    } else if from < 0 {
        first_index_from(s, c, 0)
    } else if s[from] == c {
        from
    } else {
        first_index_from(s, c, from + 1)
    }
}

proof fn lemma_first_index_from_bounds(s: Seq<u8>, c: u8, from: int)
    requires
        0 <= from <= s.len(),
    ensures
        from <= first_index_from(s, c, from) <= s.len(),
        first_index_from(s, c, from) < s.len() ==> s[first_index_from(s, c, from)] == c,
        forall|k: int| from <= k < first_index_from(s, c, from) ==> s[k] != c,
    decreases s.len() - from,
{
    if from < s.len() && s[from] != c {
        lemma_first_index_from_bounds(s, c, from + 1);
    }
}

/// Law: `first_index_from` finds the first `c` from `from` on: the
/// position it gives holds `c` when it is before the end, and no position
/// from `from` up to it does.
pub proof fn law_first_index_is_first(s: Seq<u8>, c: u8, from: int)
    requires
        0 <= from <= s.len(),
    ensures
        from <= first_index_from(s, c, from) <= s.len(),
        first_index_from(s, c, from) < s.len() ==> s[first_index_from(s, c, from)] == c,
        forall|k: int| from <= k < first_index_from(s, c, from) ==> s[k] != c,
{
    lemma_first_index_from_bounds(s, c, from);
}

/// The first position at or after `from` where `s` holds `c`, or the
/// length of `s`.
pub fn find_byte_from(s: &[u8], c: u8, from: usize) -> (i: usize)
    requires
        from <= s@.len(),
    ensures
        i == first_index_from(s@, c, from as int),
        from <= i <= s@.len(),
{
    let mut i = from;
    while i < s.len()
        invariant
            from <= i <= s@.len(),
            first_index_from(s@, c, i as int) == first_index_from(s@, c, from as int),
        decreases s@.len() - i,
    {
        if s[i] == c {
            return i;
        }
        i = i + 1;
    }
    i
}

/// The bytes of `s` from `lo` up to `hi`.
pub fn copy_range(s: &[u8], lo: usize, hi: usize) -> (r: Vec<u8>)
    requires
        lo <= hi <= s@.len(),
    ensures
        r@ == s@.subrange(lo as int, hi as int),
{
    let mut r: Vec<u8> = Vec::new();
    let mut i = lo;
    while i < hi
        invariant
            lo <= i <= hi <= s@.len(),
            r@ == s@.subrange(lo as int, i as int),
        decreases hi - i,
    {
        r.push(s[i]);
        i = i + 1;
        assert(r@ =~= s@.subrange(lo as int, i as int));
    }
    r
}

/// Appends the bytes of `s` to `out`.
pub fn append_bytes(out: &mut Vec<u8>, s: &[u8])
    ensures
        final(out)@ == old(out)@ + s@,
{
    let mut i: usize = 0;
    while i < s.len()
        invariant
            i <= s@.len(),
            out@ == old(out)@ + s@.subrange(0, i as int),
        decreases s@.len() - i,
    {
        out.push(s[i]);
        i = i + 1;
        assert(out@ =~= old(out)@ + s@.subrange(0, i as int));
    }
    assert(s@.subrange(0, s@.len() as int) =~= s@);
}

/// The path of a request: what stands between its first and its second
/// space, when it has two.
pub open spec fn request_path_spec(request: Seq<u8>) -> Option<Seq<u8>> {
    let i = first_index_from(request, SPACE, 0);
    let j = first_index_from(request, SPACE, i + 1);
    if i < request.len() && j < request.len() {
        Some(request.subrange(i + 1, j))
    } else {
        None
    }
}

/// Law: the path of a request is the text between its first two spaces.
/// When there is one, the request is some text with no space, a space, the
/// path (with no space), and a space; when there is none, the request has
/// fewer than two spaces.
pub proof fn law_request_path_between_spaces(request: Seq<u8>)
    ensures
        request_path_spec(request) matches Some(p) ==> exists|i: int|
            #![trigger request[i]]
            0 <= i && i + p.len() + 2 <= request.len() && request[i] == SPACE && request[i + 1
                + p.len()] == SPACE && request.subrange(i + 1, i + 1 + p.len()) == p && (forall|
                k: int,
            |
                0 <= k < i ==> #[trigger] request[k] != SPACE) && (forall|k: int|
                0 <= k < p.len() ==> #[trigger] p[k] != SPACE),
        request_path_spec(request) is None ==> forall|a: int, b: int|
            0 <= a < b < request.len() && #[trigger] request[a] == SPACE ==> #[trigger] request[b]
                != SPACE,
{
    lemma_first_index_from_bounds(request, SPACE, 0);
    let i = first_index_from(request, SPACE, 0);
    if i < request.len() {
        lemma_first_index_from_bounds(request, SPACE, i + 1);
    }
    let j = first_index_from(request, SPACE, i + 1);
    if request_path_spec(request) is Some {
        let p = request.subrange(i + 1, j);
        assert(request.subrange(i + 1, i + 1 + p.len()) =~= p);
        assert forall|k: int| 0 <= k < p.len() implies #[trigger] p[k] != SPACE by {
            assert(p[k] == request[i + 1 + k]);
        }
    } else {
        assert forall|a: int, b: int|
            0 <= a < b < request.len() && #[trigger] request[a] == SPACE implies #[trigger] request[b]
            != SPACE by {
            if i < request.len() {
                assert(a >= i);
            }
        }
    }
}

/// The path of a request (`GET /path HTTP/1.1`): the second of the words
/// that its first two spaces make, or `None` when it has fewer than two
/// spaces.
pub fn request_path(request: &[u8]) -> (r: Option<Vec<u8>>)
    ensures
        match r {
            Some(p) => request_path_spec(request@) == Some(p@),
            None => request_path_spec(request@) is None,
        },
{
    let i = find_byte_from(request, SPACE, 0);
    if i >= request.len() {
        return None;
    }
    let j = find_byte_from(request, SPACE, i + 1);
    if j >= request.len() {
        return None;
    }
    proof {
        lemma_first_index_from_bounds(request@, SPACE, 0);
        lemma_first_index_from_bounds(request@, SPACE, i + 1);
    }
    Some(copy_range(request, i + 1, j))
}

/// `s` with every occurrence of `pattern`, found from left to right
/// without overlapping, removed.
pub open spec fn remove_all(s: Seq<u8>, pattern: Seq<u8>) -> Seq<u8>
    decreases s.len(),
{
    if s.len() == 0 || pattern.len() == 0 {
        s
    } else if pattern.len() <= s.len() && s.subrange(0, pattern.len() as int) == pattern {
        remove_all(s.subrange(pattern.len() as int, s.len() as int), pattern)
    } else {
        seq![s[0]] + remove_all(s.subrange(1, s.len() as int), pattern)
    }
}

/// Law: removal takes out occurrences of the pattern and nothing else: a
/// text where the pattern never occurs is left as it is, and an occurrence
/// at the start is dropped whole.
pub proof fn law_remove_all_takes_only_the_pattern(s: Seq<u8>, pattern: Seq<u8>, t: Seq<u8>)
    ensures
        (forall|j: int|
            0 <= j && j + pattern.len() <= s.len() ==> #[trigger] s.subrange(
                j,
                j + pattern.len(),
            ) != pattern) ==> remove_all(s, pattern) == s,
        pattern.len() > 0 ==> remove_all(pattern + t, pattern) == remove_all(t, pattern),
    decreases s.len(),
{
    if pattern.len() > 0 {
        let u = pattern + t;
        assert(u.subrange(0, pattern.len() as int) =~= pattern);
        assert(u.subrange(pattern.len() as int, u.len() as int) =~= t);
    }
    if (forall|j: int|
        0 <= j && j + pattern.len() <= s.len() ==> #[trigger] s.subrange(j, j + pattern.len())
            != pattern) && s.len() > 0 && pattern.len() > 0 {
        let r = s.subrange(1, s.len() as int);
        assert forall|j: int|
            0 <= j && j + pattern.len() <= r.len() implies #[trigger] r.subrange(
                j,
                j + pattern.len(),
            ) != pattern by {
            assert(r.subrange(j, j + pattern.len()) =~= s.subrange(j + 1, j + 1 + pattern.len()));
        }
        law_remove_all_takes_only_the_pattern(r, pattern, t);
        if pattern.len() <= s.len() {
            let j0: int = 0;
            assert(s.subrange(j0, j0 + pattern.len()) != pattern);
            assert(s.subrange(j0, j0 + pattern.len()) == s.subrange(0, pattern.len() as int));
        }
        assert(s =~= seq![s[0]] + r);
    }
}

/// `s[at..]` starts with `pattern`.
pub fn matches_at(s: &[u8], at: usize, pattern: &[u8]) -> (b: bool)
    requires
        at <= s@.len(),
    ensures
        b == (at + pattern@.len() <= s@.len() && s@.subrange(at as int, at + pattern@.len())
            == pattern@),
{
    if pattern.len() > s.len() - at {
        return false;
    }
    let n = s.len();
    let mut k: usize = 0;
    while k < pattern.len()
        invariant
            n == s@.len(),
            at + pattern@.len() <= s@.len(),
            k <= pattern@.len(),
            forall|m: int| 0 <= m < k ==> s@[at + m] == pattern@[m],
        decreases pattern@.len() - k,
    {
        assert(at + k < s@.len());
        if s[at + k] != pattern[k] {
            assert(s@.subrange(at as int, at + pattern@.len())[k as int] != pattern@[k as int]);
            return false;
        }
        k = k + 1;
    }
    assert(s@.subrange(at as int, at + pattern@.len()) =~= pattern@);
    true
}

/// `s` with every occurrence of `pattern` removed, as `remove_all` says.
pub fn remove_occurrences(s: &[u8], pattern: &[u8]) -> (r: Vec<u8>)
    ensures
        r@ == remove_all(s@, pattern@),
{
    let mut out: Vec<u8> = Vec::new();
    if pattern.len() == 0 {
        append_bytes(&mut out, s);
        assert(out@ =~= s@);
        return out;
    }
    let mut i: usize = 0;
    assert(s@.subrange(0, s@.len() as int) =~= s@);
    assert(out@ + s@ =~= s@);
    while i < s.len()
        invariant
            i <= s@.len(),
            pattern@.len() > 0,
            out@ + remove_all(s@.subrange(i as int, s@.len() as int), pattern@) == remove_all(
                s@,
                pattern@,
            ),
        decreases s@.len() - i,
    {
        let ghost rest = s@.subrange(i as int, s@.len() as int);
        if matches_at(s, i, pattern) {
            proof {
                assert(rest.subrange(0, pattern@.len() as int) =~= s@.subrange(
                    i as int,
                    i + pattern@.len(),
                ));
                assert(rest.subrange(pattern@.len() as int, rest.len() as int) =~= s@.subrange(
                    i + pattern@.len(),
                    s@.len() as int,
                ));
            }
            i = i + pattern.len();
        } else {
            proof {
                if pattern@.len() <= rest.len() {
                    assert(rest.subrange(0, pattern@.len() as int) =~= s@.subrange(
                        i as int,
                        i + pattern@.len(),
                    ));
                }
                assert(rest.subrange(1, rest.len() as int) =~= s@.subrange(
                    i + 1,
                    s@.len() as int,
                ));
                assert(out@.push(s@[i as int]) + remove_all(
                    s@.subrange(i + 1, s@.len() as int),
                    pattern@,
                ) =~= out@ + (seq![rest[0]] + remove_all(
                    rest.subrange(1, rest.len() as int),
                    pattern@,
                )));
            }
            out.push(s[i]);
            i = i + 1;
        }
    }
    assert(s@.subrange(s@.len() as int, s@.len() as int) =~= Seq::<u8>::empty());
    assert(out@ + Seq::<u8>::empty() =~= out@);
    out
}


/// The bytes of `/../`, which a requested path may not use to climb out of
/// the served directory.
pub open spec fn parent_dir_pattern() -> Seq<u8> {
    seq![47u8, 46u8, 46u8, 47u8]
}

/// The path of a request with every `/../` removed, as the servers that
/// resolve it against their working directory use it.
pub fn sanitized_request_path(request: &[u8]) -> (r: Option<Vec<u8>>)
    ensures
        match r {
            Some(p) => request_path_spec(request@) matches Some(q) && p@ == remove_all(
                q,
                parent_dir_pattern(),
            ),
            None => request_path_spec(request@) is None,
        },
{
    match request_path(request) {
        Some(p) => {
            let pattern: Vec<u8> = vec![47u8, 46u8, 46u8, 47u8];
            assert(pattern@ =~= parent_dir_pattern());
            Some(remove_occurrences(p.as_slice(), pattern.as_slice()))
        },
        None => None,
    }
}

/// The path of a request made relative to the working directory: `.`
/// followed by the requested path.
pub fn relative_request_path(request: &[u8]) -> (r: Option<Vec<u8>>)
    ensures
        match r {
            Some(p) => request_path_spec(request@) matches Some(q) && p@ == seq![46u8] + q,
            None => request_path_spec(request@) is None,
        },
{
    match request_path(request) {
        Some(p) => {
            let mut out: Vec<u8> = Vec::new();
            out.push(46u8);
            append_bytes(&mut out, p.as_slice());
            assert(out@ =~= seq![46u8] + p@);
            Some(out)
        },
        None => None,
    }
}

/// `p` has a component `..` (between slashes, or at an end).
pub open spec fn has_parent_component(p: Seq<u8>) -> bool {
    exists|i: int| #[trigger] parent_component_at(p, i)
}

/// Positions `i` and `i + 1` of `p` hold a component `..`.
pub open spec fn parent_component_at(p: Seq<u8>, i: int) -> bool {
    &&& 0 <= i
    &&& i + 2 <= p.len()
    &&& p[i] == 46u8
    &&& p[i + 1] == 46u8
    &&& (i == 0 || p[i - 1] == 47u8)
    &&& (i + 2 == p.len() || p[i + 2] == 47u8)
}

/// Whether `p` has a component `..`.
pub fn parent_component(p: &[u8]) -> (b: bool)
    ensures
        b == has_parent_component(p@),
{
    let mut i: usize = 0;
    while i < p.len()
        invariant
            i <= p@.len(),
            forall|j: int| 0 <= j < i ==> !#[trigger] parent_component_at(p@, j),
        decreases p@.len() - i,
    {
        if i + 1 < p.len() && p[i] == 46u8 && p[i + 1] == 46u8 && (i == 0 || p[i - 1] == 47u8) && (i + 2 == p.len()
            || p[i + 2] == 47u8) {
            assert(parent_component_at(p@, i as int));
            return true;
        }
        i = i + 1;
    }
    assert forall|j: int| !#[trigger] parent_component_at(p@, j) by {
        if 0 <= j && j < i {
        }
    }
    false
}

/// The path of a request made relative to the working directory (`.`
/// followed by the requested path), refused (`None`) when it has a
/// component `..`, by which it could climb out of the working directory.
pub fn safe_request_path(request: &[u8]) -> (r: Option<Vec<u8>>)
    ensures
        match r {
            Some(p) => request_path_spec(request@) matches Some(q) && p@ == seq![46u8] + q
                && !has_parent_component(p@),
            None => request_path_spec(request@) is None || has_parent_component(
                seq![46u8] + request_path_spec(request@)->0,
            ),
        },
{
    match relative_request_path(request) {
        Some(p) => {
            if parent_component(p.as_slice()) {
                None
            } else {
                Some(p)
            }
        },
        None => None,
    }
}

/// How a request is answered.
#[derive(PartialEq, Eq, Structural, Clone, Copy, Debug)]
pub enum RequestKind {
    /// The default page, with the visitor count.
    DefaultPage,
    /// A page with server-side includes, sent as a page.
    DynamicPage,
    /// A file, queued for the file responder.
    StaticFile,
}

/// The bytes of `shtml`, the extension of pages with server-side includes.
pub open spec fn shtml_extension() -> Seq<u8> {
    seq![115u8, 104u8, 116u8, 109u8, 108u8]
}

/// The answer to a request for a path that exists (or not), is a directory
/// (or not), and has the given file extension: the default page when there
/// is no such file, a dynamic page for `.shtml` files, the file otherwise.
pub fn classify_request(path_exists: bool, is_dir: bool, extension: Option<&[u8]>) -> (k: RequestKind)
    ensures
        k == (if !path_exists || is_dir {
            RequestKind::DefaultPage
        } else if extension matches Some(e) && e@ == shtml_extension() {
            RequestKind::DynamicPage
        } else {
            RequestKind::StaticFile
        }),
{
    if !path_exists || is_dir {
        RequestKind::DefaultPage
    } else {
        let shtml: Vec<u8> = vec![115u8, 104u8, 116u8, 109u8, 108u8];
        assert(shtml@ =~= shtml_extension());
        match extension {
            Some(e) => {
                if e.len() == shtml.len() && matches_at(e, 0, shtml.as_slice()) {
                    assert(e@.subrange(0, 5) =~= e@);
                    RequestKind::DynamicPage
                } else {
                    proof {
                        if e@ == shtml_extension() {
                            assert(e@.subrange(0, 5) =~= e@);
                        }
                    }
                    RequestKind::StaticFile
                }
            },
            None => RequestKind::StaticFile,
        }
    }
}

/// The bytes of `.shtml`.
pub open spec fn shtml_suffix() -> Seq<u8> {
    seq![46u8] + shtml_extension()
}

/// The path names a page with server-side includes: it ends with `.shtml`.
pub fn is_shtml_path(path: &[u8]) -> (b: bool)
    ensures
        b == (path@.len() >= 6 && path@.subrange(path@.len() - 6, path@.len() as int)
            == shtml_suffix()),
{
    let suffix: Vec<u8> = vec![46u8, 115u8, 104u8, 116u8, 109u8, 108u8];
    assert(suffix@ =~= shtml_suffix());
    if path.len() < 6 {
        return false;
    }
    let b = matches_at(path, path.len() - 6, suffix.as_slice());
    assert(path@.len() - 6 + 6 == path@.len());
    b
}

/// The decimal digits of `n`, as ASCII bytes.
pub open spec fn decimal(n: nat) -> Seq<u8>
    decreases n,
{
    if n < 10 {
        seq![(48 + n) as u8]
    } else {
        decimal(n / 10).push((48 + n % 10) as u8)
    }
}

/// The number that the decimal digits `s` (ASCII bytes, most significant
/// first) are read as.
pub open spec fn numeral_value(s: Seq<u8>) -> int
    decreases s.len(),
{
    if s.len() == 0 {
        0
    } else {
        numeral_value(s.drop_last()) * 10 + (s.last() - 48)
    }
}

/// `b` is the ASCII byte of a decimal digit.
pub open spec fn is_digit_byte(b: u8) -> bool {
    48 <= b <= 57
}

/// Law: `decimal(n)` is the decimal numeral of `n`: at least one digit,
/// only digits, no leading zero (but for 0 itself), and read back it gives
/// `n`.
pub proof fn law_decimal_is_numeral(n: nat)
    ensures
        decimal(n).len() >= 1,
        forall|i: int| 0 <= i < decimal(n).len() ==> is_digit_byte(#[trigger] decimal(n)[i]),
        decimal(n)[0] == 48u8 ==> n == 0,
        numeral_value(decimal(n)) == n,
    decreases n,
{
    if n >= 10 {
        law_decimal_is_numeral(n / 10);
        let d = decimal(n);
        let h = decimal(n / 10);
        assert(d == h.push((48 + n % 10) as u8));
        assert(d.drop_last() =~= h);
        assert(d[0] == h[0]);
        assert(n == (n / 10) * 10 + n % 10) by (nonlinear_arith);
        assert(d.last() == (48 + n % 10) as u8);
        assert(((48 + n % 10) as u8) as int == 48 + n % 10);
        assert(numeral_value(d) == numeral_value(h) * 10 + (d.last() - 48));
        assert forall|i: int| 0 <= i < d.len() implies is_digit_byte(#[trigger] d[i]) by {
            if i < h.len() {
                assert(d[i] == h[i]);
            }
        }
    } else {
        let d = decimal(n);
        assert(d.drop_last() =~= Seq::<u8>::empty());
        assert(d.last() == (48 + n) as u8);
        assert(((48 + n) as u8) as int == 48 + n);
        assert(numeral_value(d) == numeral_value(d.drop_last()) * 10 + (d.last() - 48));
    }
}

/// Appends the decimal digits of `n` to `out`.
pub fn push_decimal(out: &mut Vec<u8>, n: usize)
    ensures
        final(out)@ == old(out)@ + decimal(n as nat),
    decreases n,
{
    if n >= 10 {
        push_decimal(out, n / 10);
    }
    out.push(48u8 + (n % 10) as u8);
    assert(final(out)@ =~= old(out)@ + decimal(n as nat));
}

/// The default page, showing `visitor_count`.
pub fn default_page(visitor_count: usize) -> (r: Vec<u8>)
    ensures
        r@ == DEFAULT_PAGE_HEAD.spec_bytes() + decimal(visitor_count as nat)
            + DEFAULT_PAGE_TAIL.spec_bytes(),
{
    let mut out: Vec<u8> = Vec::new();
    append_bytes(&mut out, DEFAULT_PAGE_HEAD.as_bytes());
    push_decimal(&mut out, visitor_count);
    append_bytes(&mut out, DEFAULT_PAGE_TAIL.as_bytes());
    assert(out@ =~= DEFAULT_PAGE_HEAD.spec_bytes() + decimal(visitor_count as nat)
        + DEFAULT_PAGE_TAIL.spec_bytes());
    out
}

/// The lines of the default page, each written on a line of its own after
/// some indentation (the style rules of `h1` and `h2` seven spaces deeper).
pub const PAGE_DOCTYPE: &'static str = "<doctype !html><html><head><title>Hello, Rust!</title>";

pub const PAGE_STYLE: &'static str = "<style>body { background-color: #111; color: #FFEEAA }";

pub const PAGE_H1_STYLE: &'static str =
    "h1 { font-size:2cm; text-align: center; color: black; text-shadow: 0 0 4mm red}";

pub const PAGE_H2_STYLE: &'static str =
    "h2 { font-size:2cm; text-align: center; color: black; text-shadow: 0 0 4mm green}";

pub const PAGE_STYLE_END: &'static str = "</style></head>";

pub const PAGE_BODY: &'static str = "<body>";

pub const PAGE_GREETING: &'static str = "<h1>Greetings, Krusty!</h1>";

pub const PAGE_COUNT: &'static str = "<h2>Visitor count: ";

pub const PAGE_COUNT_END: &'static str = "</h2>";

pub const PAGE_END: &'static str = "</body></html>\r\n";

/// The indentation of the default page of the servers that queue requests
/// by the peer's name (the page of `default_page`).
pub const QUEUED_PAGE_INDENT: usize = 13;

/// The indentation of the default page of the shortest-first servers with
/// a file cache.
pub const CACHING_PAGE_INDENT: usize = 29;

/// The indentation of the default page of the plain servers and of the
/// servers with options.
pub const PLAIN_PAGE_INDENT: usize = 25;

/// `n` spaces.
pub open spec fn spaces(n: nat) -> Seq<u8> {
    Seq::new(n, |i: int| 32u8)
}

/// A new line, `indent` spaces, then `text`.
pub open spec fn page_line(indent: nat, text: Seq<u8>) -> Seq<u8> {
    seq![10u8] + spaces(indent) + text
}

/// The default page with the visitor count, its lines indented by
/// `indent` spaces.
pub open spec fn indented_page(visitor_count: nat, indent: nat) -> Seq<u8> {
    PAGE_HEADER.spec_bytes() + page_line(indent, PAGE_DOCTYPE.spec_bytes()) + page_line(
        indent,
        PAGE_STYLE.spec_bytes(),
    ) + page_line(indent + 7, PAGE_H1_STYLE.spec_bytes()) + page_line(
        indent + 7,
        PAGE_H2_STYLE.spec_bytes(),
    ) + page_line(indent, PAGE_STYLE_END.spec_bytes()) + page_line(indent, PAGE_BODY.spec_bytes())
        + page_line(indent, PAGE_GREETING.spec_bytes()) + page_line(indent, PAGE_COUNT.spec_bytes())
        + decimal(visitor_count) + PAGE_COUNT_END.spec_bytes() + page_line(
        indent,
        PAGE_END.spec_bytes(),
    )
}

/// Appends a new line, `indent` spaces and `text`.
fn push_page_line(out: &mut Vec<u8>, indent: usize, text: &[u8])
    ensures
        final(out)@ == old(out)@ + page_line(indent as nat, text@),
{
    out.push(10u8);
    let mut k: usize = 0;
    while k < indent
        invariant
            k <= indent,
            out@ == old(out)@ + seq![10u8] + spaces(k as nat),
        decreases indent - k,
    {
        out.push(32u8);
        k = k + 1;
        assert(out@ =~= old(out)@ + seq![10u8] + spaces(k as nat));
    }
    append_bytes(out, text);
    assert(out@ =~= old(out)@ + page_line(indent as nat, text@));
}

/// The default page with the visitor count, its lines indented by
/// `indent` spaces, as each kind of server writes it.
pub fn indented_default_page(visitor_count: usize, indent: usize) -> (r: Vec<u8>)
    requires
        indent + 7 <= usize::MAX,
    ensures
        r@ == indented_page(visitor_count as nat, indent as nat),
{
    let mut out: Vec<u8> = Vec::new();
    append_bytes(&mut out, PAGE_HEADER.as_bytes());
    push_page_line(&mut out, indent, PAGE_DOCTYPE.as_bytes());
    push_page_line(&mut out, indent, PAGE_STYLE.as_bytes());
    push_page_line(&mut out, indent + 7, PAGE_H1_STYLE.as_bytes());
    push_page_line(&mut out, indent + 7, PAGE_H2_STYLE.as_bytes());
    push_page_line(&mut out, indent, PAGE_STYLE_END.as_bytes());
    push_page_line(&mut out, indent, PAGE_BODY.as_bytes());
    push_page_line(&mut out, indent, PAGE_GREETING.as_bytes());
    push_page_line(&mut out, indent, PAGE_COUNT.as_bytes());
    push_decimal(&mut out, visitor_count);
    append_bytes(&mut out, PAGE_COUNT_END.as_bytes());
    push_page_line(&mut out, indent, PAGE_END.as_bytes());
    assert(out@ =~= indented_page(visitor_count as nat, indent as nat));
    out
}

/// The response that carries a file with the given contents.
pub fn static_file_response(contents: &[u8]) -> (r: Vec<u8>)
    ensures
        r@ == STATIC_FILE_HEADER.spec_bytes() + contents@,
{
    let mut out: Vec<u8> = Vec::new();
    append_bytes(&mut out, STATIC_FILE_HEADER.as_bytes());
    append_bytes(&mut out, contents);
    assert(out@ =~= STATIC_FILE_HEADER.spec_bytes() + contents@);
    out
}

/// The response that carries a page with the given contents.
pub fn dynamic_page_response(contents: &[u8]) -> (r: Vec<u8>)
    ensures
        r@ == PAGE_HEADER.spec_bytes() + contents@,
{
    let mut out: Vec<u8> = Vec::new();
    append_bytes(&mut out, PAGE_HEADER.as_bytes());
    append_bytes(&mut out, contents);
    assert(out@ =~= PAGE_HEADER.spec_bytes() + contents@);
    out
}

} // verus!
