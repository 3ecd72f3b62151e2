//! Matches reported by a content search over a revision, read from the
//! search's NUL-separated output (`<revision>:<file>\0<line>\0<content>`).
use vstd::prelude::*;
use vstd::utf8::{valid_utf8, decode_utf8, encode_utf8};

verus! {

/// A search request.
#[derive(Clone, Debug)]
pub struct GrepQuery {
    pub pattern: String,
}

/// One matching line.
#[derive(Clone, Debug)]
pub struct GrepMatch {
    pub file: String,
    pub line: usize,
    pub content: String,
}

/// Text of bytes with each invalid sequence replaced by U+FFFD.
pub uninterp spec fn lossy_utf8(b: Seq<u8>) -> Seq<char>;

/// Relies on String::from_utf8_lossy: valid UTF-8 is decoded unchanged,
/// invalid sequences are replaced.
#[verifier::external_body]
fn lossy_text(b: &[u8]) -> (r: String)
    ensures
        r@ == lossy_utf8(b@),
        valid_utf8(b@) ==> r@ == decode_utf8(b@),
{
    String::from_utf8_lossy(b).into_owned()
}

/// The first index at or after `from` that holds `x`, or the length.
pub open spec fn find_byte(b: Seq<u8>, x: u8, from: int) -> int
    decreases b.len() - from,
{
    if from >= b.len() {
        b.len() as int
    } else if b[from] == x {
        from
    } else {
        find_byte(b, x, from + 1)
    }
}

pub open spec fn is_digit(c: u8) -> bool {
    48 <= c <= 57
}

/// The value of a string of decimal digits.
pub open spec fn digits_value(s: Seq<u8>) -> nat
    decreases s.len(),
{
    if s.len() == 0 {
        0
    } else {
        digits_value(s.drop_last()) * 10 + (s.last() - 48) as nat
    }
}

/// The digits of an unsigned number: without a leading `+`.
pub open spec fn unsigned_digits(s: Seq<u8>) -> Seq<u8> {
    if s.len() > 0 && s[0] == 43 {
        s.skip(1)
    } else {
        s
    }
}

/// A line number as `usize` parses it: an optional `+` and at least one
/// digit, with a value that fits.
pub open spec fn line_number(s: Seq<u8>) -> Option<nat> {
    let d = unsigned_digits(s);
    if d.len() > 0 && (forall|i: int| 0 <= i < d.len() ==> is_digit(#[trigger] d[i]))
        && digits_value(d) <= usize::MAX {
        Some(digits_value(d))
    } else {
        None
    }
}

/// A match read from one output line: the file (without the revision
/// prefix), the line number and the content. `None` when the line lacks a
/// field or its line number does not parse.
pub open spec fn parse_line(l: Seq<u8>, prefix: Seq<u8>) -> Option<(Seq<u8>, nat, Seq<u8>)> {
    let e0 = find_byte(l, 0, 0);
    let e1 = find_byte(l, 0, e0 + 1);
    let e2 = find_byte(l, 0, e1 + 1);
    let f0 = l.subrange(0, e0);
    let file = if prefix.len() <= f0.len() && f0.take(prefix.len() as int) == prefix {
        f0.skip(prefix.len() as int)
    } else {
        f0
    };
    if e0 < l.len() && e1 < l.len() && line_number(l.subrange(e0 + 1, e1)) is Some {
        Some((file, line_number(l.subrange(e0 + 1, e1))->0, l.subrange(e1 + 1, e2)))
    } else {
        None
    }
}

/// The line that starts at `from`: up to the next newline, without a
/// carriage return just before that newline.
pub open spec fn line_at(b: Seq<u8>, from: int) -> Seq<u8> {
    let e = find_byte(b, 10, from);
    if e < b.len() && e > from && b[e - 1] == 13 {
        b.subrange(from, e - 1)
    } else {
        b.subrange(from, e)
    }
}

/// The matches of the output lines from `from` on, in order.
pub open spec fn matches_from(b: Seq<u8>, prefix: Seq<u8>, from: int) -> Seq<
    (Seq<u8>, nat, Seq<u8>),
>
    decreases b.len() + 1 - from,
{
    if from < 0 || from >= b.len() {
        Seq::empty()
    } else {
        let next = find_byte(b, 10, from) + 1;
        if next <= from || next > b.len() + 1 {
            Seq::empty()
        } else {
            let rest = matches_from(b, prefix, next);
            match parse_line(line_at(b, from), prefix) {
                Some(m) => seq![m] + rest,
                None => rest,
            }
        }
    }
}

pub open spec fn match_view(m: GrepMatch) -> (Seq<char>, nat, Seq<char>) {
    (m.file@, m.line as nat, m.content@)
}

pub open spec fn lossy_match(m: (Seq<u8>, nat, Seq<u8>)) -> (Seq<char>, nat, Seq<char>) {
    (lossy_utf8(m.0), m.1, lossy_utf8(m.2))
}

proof fn lemma_find_byte_bounds(b: Seq<u8>, x: u8, from: int)
    requires
        0 <= from,
    ensures
        from <= find_byte(b, x, from) || from > b.len(),
        find_byte(b, x, from) <= b.len(),
        find_byte(b, x, from) < b.len() ==> b[find_byte(b, x, from)] == x,
        forall|i: int| from <= i < find_byte(b, x, from) ==> b[i] != x,
    decreases b.len() - from,
{
    if from < b.len() && b[from] != x {
        lemma_find_byte_bounds(b, x, from + 1);
    }
}

/// The first index in `start..end` that holds `x`, or `end`.
fn find_in(b: &[u8], x: u8, start: usize, end: usize) -> (r: usize)
    requires
        start <= end <= b@.len(),
    ensures
        start <= r <= end,
        r < end ==> b@[r as int] == x,
        forall|i: int| start <= i < r ==> b@[i] != x,
{
    let mut i = start;
    while i < end
        invariant
            start <= i <= end,
            end <= b@.len(),
            forall|k: int| start <= k < i ==> b@[k] != x,
        decreases end - i,
    {
        if b[i] == x {
            return i;
        }
        i = i + 1;
    }
    i
}

/// A find in a subrange agrees with the spec on that subrange.
proof fn lemma_find_shift(b: Seq<u8>, x: u8, start: int, end: int, from: int, r: int)
    requires
        0 <= start <= end <= b.len(),
        0 <= from,
        start + from <= r <= end,
        r < end ==> b[r] == x,
        forall|i: int| start + from <= i < r ==> b[i] != x,
    ensures
        find_byte(b.subrange(start, end), x, from) == if from > end - start {
            end - start
        } else {
            r - start
        },
    decreases end - start - from,
{
    let l = b.subrange(start, end);
    if from > end - start {
        lemma_find_byte_bounds(l, x, from);
    } else if from == end - start {
    } else if b[start + from] == x {
        assert(l[from] == x);
    } else {
        assert(l[from] != x);
        lemma_find_shift(b, x, start, end, from + 1, r);
    }
}

/// Copies `b[start..end]`.
fn copy_range(b: &[u8], start: usize, end: usize) -> (r: Vec<u8>)
    requires
        start <= end <= b@.len(),
    ensures
        r@ == b@.subrange(start as int, end as int),
{
    let mut v: Vec<u8> = Vec::new();
    let mut i = start;
    while i < end
        invariant
            start <= i <= end,
            end <= b@.len(),
            v@ == b@.subrange(start as int, i as int),
        decreases end - i,
    {
        v.push(b[i]);
        assert(v@ =~= b@.subrange(start as int, i + 1));
        i = i + 1;
    }
    v
}

proof fn lemma_digits_value_push(s: Seq<u8>, c: u8)
    ensures
        digits_value(s.push(c)) == digits_value(s) * 10 + (c - 48) as nat,
{
    assert(s.push(c).drop_last() =~= s);
}

proof fn lemma_digits_value_grows(s: Seq<u8>, n: int)
    requires
        0 <= n <= s.len(),
        forall|i: int| 0 <= i < s.len() ==> is_digit(#[trigger] s[i]),
    ensures
        digits_value(s.take(n)) <= digits_value(s),
    decreases s.len() - n,
{
    if n < s.len() {
        lemma_digits_value_grows(s, n + 1);
        assert(s.take(n + 1).drop_last() =~= s.take(n));
    } else {
        assert(s.take(n) =~= s);
    }
}

/// Parses `b[start..end]` as a line number.
fn parse_number(b: &[u8], start: usize, end: usize) -> (r: Option<usize>)
    requires
        start <= end <= b@.len(),
    ensures
        match line_number(b@.subrange(start as int, end as int)) {
            Some(n) => r == Some(n as usize),
            None => r is None,
        },
{
    let ghost s = b@.subrange(start as int, end as int);
    let mut i = start;
    if i < end && b[i] == 43 {
        i = i + 1;
    }
    let ghost d = b@.subrange(i as int, end as int);
    assert(d =~= unsigned_digits(s));
    if i == end {
        assert(d.len() == 0);
        return None;
    }
    let first = i;
    let mut v: usize = 0;
    while i < end
        invariant
            first <= i <= end,
            end <= b@.len(),
            d == b@.subrange(first as int, end as int),
            s == b@.subrange(start as int, end as int),
            d == unsigned_digits(s),
            forall|k: int| first <= k < i ==> is_digit(b@[k]),
            v == digits_value(b@.subrange(first as int, i as int)),
        decreases end - i,
    {
        let c = b[i];
        if c < 48 || c > 57 {
            assert(!is_digit(d[i - first]));
            assert(!(forall|k: int| 0 <= k < d.len() ==> is_digit(#[trigger] d[k])));
            assert(line_number(s) is None);
            return None;
        }
        proof {
            lemma_digits_value_push(b@.subrange(first as int, i as int), c);
            assert(b@.subrange(first as int, i as int).push(c) =~= b@.subrange(first as int, i + 1));
        }
        let digit = (c - 48) as usize;
        if v > (usize::MAX - digit) / 10 {
            proof {
                assert(v * 10 + digit > usize::MAX) by (nonlinear_arith)
                    requires v > (usize::MAX - digit) / 10, digit <= 9;
                assert(digits_value(b@.subrange(first as int, i + 1)) > usize::MAX);
                if forall|k: int| 0 <= k < d.len() ==> is_digit(#[trigger] d[k]) {
                    lemma_digits_value_grows(d, i + 1 - first);
                    assert(d.take(i + 1 - first) =~= b@.subrange(first as int, i + 1));
                    assert(digits_value(d) > usize::MAX);
                }
                assert(line_number(s) is None);
            }
            return None;
        }
        proof {
            assert(v * 10 + digit <= usize::MAX) by (nonlinear_arith)
                requires v <= (usize::MAX - digit) / 10, digit <= 9;
        }
        v = v * 10 + digit;
        i = i + 1;
    }
    assert(b@.subrange(first as int, i as int) =~= d);
    Some(v)
}

/// Whether `b[start..end]` begins with `prefix`.
fn has_prefix(b: &[u8], start: usize, end: usize, prefix: &[u8]) -> (r: bool)
    requires
        start <= end <= b@.len(),
    ensures
        r == (prefix@.len() <= end - start && b@.subrange(start as int, end as int).take(
            prefix@.len() as int,
        ) == prefix@),
{
    let ghost f = b@.subrange(start as int, end as int);
    if prefix.len() > end - start {
        return false;
    }
    let mut k: usize = 0;
    while k < prefix.len()
        invariant
            0 <= k <= prefix@.len(),
            prefix@.len() <= end - start,
            start <= end <= b@.len(),
            f == b@.subrange(start as int, end as int),
            forall|j: int| 0 <= j < k ==> f[j] == prefix@[j],
        decreases prefix@.len() - k,
    {
        if b[start + k] != prefix[k] {
            assert(f.take(prefix@.len() as int)[k as int] != prefix@[k as int]);
            return false;
        }
        k = k + 1;
    }
    assert(f.take(prefix@.len() as int) =~= prefix@);
    true
}

/// Reads the match on the line `b[start..end]`.
fn parse_line_at(b: &[u8], start: usize, end: usize, prefix: &[u8]) -> (r: Option<GrepMatch>)
    requires
        start <= end <= b@.len(),
    ensures
        match parse_line(b@.subrange(start as int, end as int), prefix@) {
            Some(m) => r matches Some(g) && match_view(g) == lossy_match(m),
            None => r is None,
        },
{
    let ghost l = b@.subrange(start as int, end as int);
    let e0 = find_in(b, 0, start, end);
    proof {
        lemma_find_shift(b@, 0, start as int, end as int, 0, e0 as int);
    }
    if e0 == end {
        return None;
    }
    let e1 = find_in(b, 0, e0 + 1, end);
    proof {
        lemma_find_shift(b@, 0, start as int, end as int, e0 + 1 - start, e1 as int);
    }
    if e1 == end {
        return None;
    }
    let e2 = find_in(b, 0, e1 + 1, end);
    proof {
        lemma_find_shift(b@, 0, start as int, end as int, e1 + 1 - start, e2 as int);
        assert(l.subrange(e0 + 1 - start, e1 - start) =~= b@.subrange(e0 + 1, e1 as int));
        assert(l.subrange(e1 + 1 - start, e2 - start) =~= b@.subrange(e1 + 1, e2 as int));
        assert(l.subrange(0, e0 - start) =~= b@.subrange(start as int, e0 as int));
    }
    let n = match parse_number(b, e0 + 1, e1) {
        Some(n) => n,
        None => return None,
    };
    let stripped = has_prefix(b, start, e0, prefix);
    let fstart = if stripped {
        start + prefix.len()
    } else {
        start
    };
    proof {
        if stripped {
            assert(l.subrange(0, e0 - start).skip(prefix@.len() as int) =~= b@.subrange(
                fstart as int,
                e0 as int,
            ));
        }
    }
    let file_bytes = copy_range(b, fstart, e0);
    let content_bytes = copy_range(b, e1 + 1, e2);
    let file = lossy_text(file_bytes.as_slice());
    let content = lossy_text(content_bytes.as_slice());
    Some(GrepMatch { file, line: n, content })
}

/// The matches in the output of a search over `revision`, line by line and
/// in order. A line yields a match when it has a file, a line number that
/// parses and a content field; the `<revision>:` prefix is taken off the
/// file. Other lines are skipped.
pub fn parse_grep_output(stdout: &[u8], revision: &str) -> (r: Vec<GrepMatch>)
    ensures
        r@.map_values(|g: GrepMatch| match_view(g)) == matches_from(
            stdout@,
            encode_utf8(revision@) + seq![58u8],
            0,
        ).map_values(|m: (Seq<u8>, nat, Seq<u8>)| lossy_match(m)),
{
    let rev = revision.as_bytes();
    let mut prefix = copy_range(rev, 0, rev.len());
    prefix.push(58);
    let ghost p = encode_utf8(revision@) + seq![58u8];
    assert(prefix@ =~= p);
    let ghost whole = matches_from(stdout@, p, 0).map_values(|m: (Seq<u8>, nat, Seq<u8>)| lossy_match(m));
    let mut out: Vec<GrepMatch> = Vec::new();
    let mut pos: usize = 0;
    assert(out@.map_values(|g: GrepMatch| match_view(g)) + whole =~= whole);
    while pos < stdout.len()
        invariant
            0 <= pos <= stdout@.len() + 1,
            prefix@ == p,
            whole == matches_from(stdout@, p, 0).map_values(|m: (Seq<u8>, nat, Seq<u8>)| lossy_match(m)),
            out@.map_values(|g: GrepMatch| match_view(g)) + matches_from(stdout@, p, pos as int).map_values(
                |m: (Seq<u8>, nat, Seq<u8>)| lossy_match(m),
            ) == whole,
        decreases stdout@.len() + 1 - pos,
    {
        let len = stdout.len();
        let e = find_in(stdout, 10, pos, len);
        proof {
            lemma_find_shift(stdout@, 10, 0, len as int, pos as int, e as int);
            assert(stdout@.subrange(0, len as int) =~= stdout@);
        }
        let line_end = if e < len && e > pos && stdout[e - 1] == 13 {
            e - 1
        } else {
            e
        };
        let ghost before = out@.map_values(|g: GrepMatch| match_view(g));
        let ghost rest = matches_from(stdout@, p, e + 1).map_values(|m: (Seq<u8>, nat, Seq<u8>)| lossy_match(m));
        match parse_line_at(stdout, pos, line_end, prefix.as_slice()) {
            Some(m) => {
                out.push(m);
                proof {
                    let pm = parse_line(line_at(stdout@, pos as int), p)->0;
                    assert(out@.map_values(|g: GrepMatch| match_view(g)) =~= before.push(lossy_match(pm)));
                    assert(matches_from(stdout@, p, pos as int) == seq![pm] + matches_from(stdout@, p, e + 1));
                    assert((seq![pm] + matches_from(stdout@, p, e + 1)).map_values(
                        |m: (Seq<u8>, nat, Seq<u8>)| lossy_match(m),
                    ) =~= seq![lossy_match(pm)] + rest);
                    assert(before.push(lossy_match(pm)) + rest =~= before + (seq![lossy_match(pm)] + rest));
                }
            },
            None => {},
        }
        proof {
            assert(matches_from(stdout@, p, len as int) =~= matches_from(stdout@, p, len + 1));
        }
        pos = if e < len {
            e + 1
        } else {
            len
        };
    }
    assert(matches_from(stdout@, p, pos as int) =~= Seq::empty());
    assert(out@.map_values(|g: GrepMatch| match_view(g)) + Seq::empty() =~= out@.map_values(|g: GrepMatch| match_view(g)));
    out
}

} // verus!
