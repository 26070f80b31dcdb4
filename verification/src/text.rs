//! Character-level text handling: trimming, line splitting, substring search,
//! and the conversions between `str`, `String`, characters and UTF-8 bytes.

use vstd::prelude::*;
use vstd::utf8::*;
use vstd::string::StringSliceAdditionalSpecFns;

verus! {

// ---------------------------------------------------------------------------
// Trimming by a predicate
// ---------------------------------------------------------------------------

/// `s` without the leading elements that satisfy `strip`.
pub open spec fn trim_start_by<A>(s: Seq<A>, strip: spec_fn(A) -> bool) -> Seq<A>
    decreases s.len(),
{
    if s.len() > 0 && strip(s[0]) {
        trim_start_by(s.drop_first(), strip)
    } else {
        s
    }
}

/// `s` without the trailing elements that satisfy `strip`.
pub open spec fn trim_end_by<A>(s: Seq<A>, strip: spec_fn(A) -> bool) -> Seq<A>
    decreases s.len(),
{
    if s.len() > 0 && strip(s.last()) {
        trim_end_by(s.drop_last(), strip)
    } else {
        s
    }
}

/// `s` without the leading and trailing elements that satisfy `strip`.
pub open spec fn trim_by<A>(s: Seq<A>, strip: spec_fn(A) -> bool) -> Seq<A> {
    trim_end_by(trim_start_by(s, strip), strip)
}

proof fn lemma_trim_start_skip<A>(s: Seq<A>, strip: spec_fn(A) -> bool, k: int)
    requires
        0 <= k <= s.len(),
        forall|i: int| 0 <= i < k ==> strip(#[trigger] s[i]),
    ensures
        trim_start_by(s, strip) == trim_start_by(s.skip(k), strip),
    decreases k,
{
    if k == 0 {
        assert(s.skip(0) =~= s);
    } else {
        assert(strip(s[0]));
        let t = s.drop_first();
        assert forall|i: int| 0 <= i < k - 1 implies strip(#[trigger] t[i]) by {
            assert(t[i] == s[i + 1]);
        }
        lemma_trim_start_skip(t, strip, k - 1);
        assert(t.skip(k - 1) =~= s.skip(k));
    }
}

proof fn lemma_trim_end_take<A>(s: Seq<A>, strip: spec_fn(A) -> bool, k: int)
    requires
        0 <= k <= s.len(),
        forall|i: int| k <= i < s.len() ==> strip(#[trigger] s[i]),
    ensures
        trim_end_by(s, strip) == trim_end_by(s.take(k), strip),
    decreases s.len() - k,
{
    if k == s.len() {
        assert(s.take(k) =~= s);
    } else {
        assert(strip(s.last()));
        let t = s.drop_last();
        assert forall|i: int| k <= i < t.len() implies strip(#[trigger] t[i]) by {
            assert(t[i] == s[i]);
        }
        lemma_trim_end_take(t, strip, k);
        assert(t.take(k) =~= s.take(k));
    }
}

/// Characterises `trim_by` by the bounds of the kept part.
pub proof fn lemma_trim_bounds<A>(s: Seq<A>, strip: spec_fn(A) -> bool, lo: int, hi: int)
    requires
        0 <= lo <= hi <= s.len(),
        forall|i: int| 0 <= i < lo ==> strip(#[trigger] s[i]),
        forall|i: int| hi <= i < s.len() ==> strip(#[trigger] s[i]),
        lo < s.len() ==> !strip(s[lo]) && lo < hi && !strip(s[hi - 1]),
        lo == s.len() ==> hi == s.len(),
    ensures
        trim_by(s, strip) == s.subrange(lo, hi),
{
    lemma_trim_start_skip(s, strip, lo);
    let t = s.skip(lo);
    assert(trim_start_by(t, strip) == t);
    assert forall|i: int| hi - lo <= i < t.len() implies strip(#[trigger] t[i]) by {
        assert(t[i] == s[i + lo]);
    }
    lemma_trim_end_take(t, strip, hi - lo);
    let u = t.take(hi - lo);
    if hi > lo {
        assert(u.last() == s[hi - 1]);
    }
    assert(trim_end_by(u, strip) == u);
    assert(u =~= s.subrange(lo, hi));
}

proof fn lemma_trim_start_removed<A>(s: Seq<A>, strip: spec_fn(A) -> bool)
    ensures
        trim_start_by(s, strip).len() <= s.len(),
        trim_start_by(s, strip) == s.skip(s.len() - trim_start_by(s, strip).len()),
        forall|i: int|
            0 <= i < s.len() - trim_start_by(s, strip).len() ==> strip(#[trigger] s[i]),
    decreases s.len(),
{
    if s.len() > 0 && strip(s[0]) {
        let t = s.drop_first();
        lemma_trim_start_removed(t, strip);
        let k = t.len() - trim_start_by(t, strip).len();
        assert(s.skip(k + 1) =~= t.skip(k));
        assert forall|i: int| 0 <= i < k + 1 implies strip(#[trigger] s[i]) by {
            if i > 0 {
                assert(s[i] == t[i - 1]);
            }
        }
    } else {
        assert(s.skip(0) =~= s);
    }
}

proof fn lemma_trim_end_removed<A>(s: Seq<A>, strip: spec_fn(A) -> bool)
    ensures
        trim_end_by(s, strip).len() <= s.len(),
        trim_end_by(s, strip) == s.take(trim_end_by(s, strip).len() as int),
        forall|i: int| trim_end_by(s, strip).len() <= i < s.len() ==> strip(#[trigger] s[i]),
    decreases s.len(),
{
    if s.len() > 0 && strip(s.last()) {
        let t = s.drop_last();
        lemma_trim_end_removed(t, strip);
        let r = trim_end_by(t, strip);
        assert(t.take(r.len() as int) =~= s.take(r.len() as int));
        assert forall|i: int| r.len() <= i < s.len() implies strip(#[trigger] s[i]) by {
            if i < t.len() {
                assert(s[i] == t[i]);
            }
        }
    } else {
        assert(s.take(s.len() as int) =~= s);
    }
}

/// Trimming keeps one contiguous stretch of `s` and removes only elements
/// that the predicate strips.
pub proof fn lemma_trim_removes_only_stripped<A>(s: Seq<A>, strip: spec_fn(A) -> bool)
    ensures
        exists|lo: int, hi: int|
            0 <= lo <= hi <= s.len() && #[trigger] s.subrange(lo, hi) == trim_by(s, strip) && (
            forall|i: int|
                (0 <= i < lo || hi <= i < s.len()) ==> strip(#[trigger] s[i])),
{
    lemma_trim_start_removed(s, strip);
    let t = trim_start_by(s, strip);
    let lo = s.len() - t.len();
    lemma_trim_end_removed(t, strip);
    let u = trim_end_by(t, strip);
    let hi = lo + u.len();
    assert(s.subrange(lo, hi) =~= u);
    assert forall|i: int| (0 <= i < lo || hi <= i < s.len()) implies strip(#[trigger] s[i]) by {
        if hi <= i {
            assert(s[i] == t[i - lo]);
        }
    }
}

/// Trimming keeps nothing that the predicate strips at either end.
pub proof fn lemma_trim_ends<A>(s: Seq<A>, strip: spec_fn(A) -> bool)
    ensures
        trim_by(s, strip).len() > 0 ==> !strip(trim_by(s, strip)[0]) && !strip(
            trim_by(s, strip).last(),
        ),
        trim_by(s, strip).len() <= s.len(),
{
    lemma_trim_start_shape(s, strip);
    lemma_trim_end_shape(trim_start_by(s, strip), strip);
}

proof fn lemma_trim_start_shape<A>(s: Seq<A>, strip: spec_fn(A) -> bool)
    ensures
        trim_start_by(s, strip).len() > 0 ==> !strip(trim_start_by(s, strip)[0]),
        trim_start_by(s, strip).len() <= s.len(),
        exists|k: int|
            0 <= k <= s.len() && #[trigger] s.skip(k) == trim_start_by(s, strip),
    decreases s.len(),
{
    if s.len() > 0 && strip(s[0]) {
        lemma_trim_start_shape(s.drop_first(), strip);
        let k = choose|k: int|
            0 <= k <= s.drop_first().len() && #[trigger] s.drop_first().skip(k)
                == trim_start_by(s.drop_first(), strip);
        assert(s.skip(k + 1) =~= s.drop_first().skip(k));
    } else {
        assert(s.skip(0) =~= s);
    }
}

proof fn lemma_trim_end_shape<A>(s: Seq<A>, strip: spec_fn(A) -> bool)
    ensures
        trim_end_by(s, strip).len() > 0 ==> !strip(trim_end_by(s, strip).last()),
        trim_end_by(s, strip).len() <= s.len(),
        trim_end_by(s, strip) == s.take(trim_end_by(s, strip).len() as int),
        s.len() > 0 && !strip(s[0]) ==> trim_end_by(s, strip).len() > 0 && trim_end_by(
            s,
            strip,
        )[0] == s[0],
    decreases s.len(),
{
    if s.len() > 0 && strip(s.last()) {
        lemma_trim_end_shape(s.drop_last(), strip);
        let r = trim_end_by(s.drop_last(), strip);
        assert(s.drop_last().take(r.len() as int) =~= s.take(r.len() as int));
    } else {
        assert(s.take(s.len() as int) =~= s);
    }
}

/// Trimming twice changes nothing more.
pub proof fn lemma_trim_idempotent<A>(s: Seq<A>, strip: spec_fn(A) -> bool)
    ensures
        trim_by(trim_by(s, strip), strip) == trim_by(s, strip),
{
    let t = trim_by(s, strip);
    lemma_trim_ends(s, strip);
    if t.len() == 0 {
        lemma_trim_bounds(t, strip, 0, 0);
        assert(t.subrange(0, 0) =~= t);
    } else {
        lemma_trim_bounds(t, strip, 0, t.len() as int);
        assert(t.subrange(0, t.len() as int) =~= t);
    }
}

// ---------------------------------------------------------------------------
// Unicode white space
// ---------------------------------------------------------------------------

/// The Unicode `White_Space` property, which `char::is_whitespace` and
/// `str::trim` use.
pub open spec fn is_white_space(c: char) -> bool {
    ||| ('\u{9}' <= c && c <= '\u{d}')
    ||| c == ' '
    ||| c == '\u{85}'
    ||| c == '\u{a0}'
    ||| c == '\u{1680}'
    ||| ('\u{2000}' <= c && c <= '\u{200a}')
    ||| c == '\u{2028}'
    ||| c == '\u{2029}'
    ||| c == '\u{202f}'
    ||| c == '\u{205f}'
    ||| c == '\u{3000}'
}

/// `is_white_space` as a predicate value.
pub open spec fn white_space() -> spec_fn(char) -> bool {
    |c: char| is_white_space(c)
}

/// `s` without leading and trailing white space, as `str::trim` gives it.
pub open spec fn trim(s: Seq<char>) -> Seq<char> {
    trim_by(s, white_space())
}

/// Whether `c` is Unicode white space.
pub fn is_whitespace(c: char) -> (b: bool)
    ensures
        b == is_white_space(c),
{
    ('\u{9}' <= c && c <= '\u{d}') || c == ' ' || c == '\u{85}' || c == '\u{a0}' || c
        == '\u{1680}' || ('\u{2000}' <= c && c <= '\u{200a}') || c == '\u{2028}' || c
        == '\u{2029}' || c == '\u{202f}' || c == '\u{205f}' || c == '\u{3000}'
}

/// The characters of `s` without leading and trailing white space.
pub fn trim_chars(s: &Vec<char>) -> (r: Vec<char>)
    ensures
        r@ == trim(s@),
{
    let n = s.len();
    let mut lo: usize = 0;
    while lo < n && is_whitespace(s[lo])
        invariant
            lo <= n == s.len(),
            forall|i: int| 0 <= i < lo ==> white_space()(#[trigger] s@[i]),
        decreases n - lo,
    {
        lo = lo + 1;
    }
    let mut hi: usize = n;
    while hi > lo && is_whitespace(s[hi - 1])
        invariant
            lo <= hi <= n == s.len(),
            forall|i: int| hi <= i < n ==> white_space()(#[trigger] s@[i]),
        decreases hi,
    {
        hi = hi - 1;
    }
    proof {
        lemma_trim_bounds(s@, white_space(), lo as int, hi as int);
    }
    let mut r: Vec<char> = Vec::new();
    let mut i = lo;
    while i < hi
        invariant
            lo <= i <= hi <= n == s.len(),
            r@ == s@.subrange(lo as int, i as int),
        decreases hi - i,
    {
        r.push(s[i]);
        proof {
            assert(s@.subrange(lo as int, i + 1) =~= s@.subrange(lo as int, i as int).push(
                s@[i as int],
            ));
        }
        i = i + 1;
    }
    r
}

// ---------------------------------------------------------------------------
// Lines
// ---------------------------------------------------------------------------

/// Index of the first `'\n'` in `s`, or its length when there is none.
pub open spec fn first_newline(s: Seq<char>) -> nat
    decreases s.len(),
{
    if s.len() == 0 {
        0
    } else if s[0] == '\n' {
        0
    } else {
        1 + first_newline(s.drop_first())
    }
}

/// `l` without one trailing carriage return.
pub open spec fn strip_cr(l: Seq<char>) -> Seq<char> {
    if l.len() > 0 && l.last() == '\r' {
        l.drop_last()
    } else {
        l
    }
}

/// The lines of `s`, as `str::lines` yields them: split at `'\n'`, with a
/// `'\r'` right before a `'\n'` removed, and no empty line after a final
/// line ending.
pub open spec fn lines(s: Seq<char>) -> Seq<Seq<char>>
    decreases s.len(),
{
    if s.len() == 0 {
        seq![]
    } else {
        let k = first_newline(s);
        if k >= s.len() {
            seq![s]
        } else {
            seq![strip_cr(s.take(k as int))] + lines(s.skip(k + 1int))
        }
    }
}

proof fn lemma_first_newline(s: Seq<char>, j: int)
    requires
        0 <= j <= s.len(),
        forall|i: int| 0 <= i < j ==> #[trigger] s[i] != '\n',
        j < s.len() ==> s[j] == '\n',
    ensures
        first_newline(s) == j,
    decreases j,
{
    if j > 0 {
        let t = s.drop_first();
        assert forall|i: int| 0 <= i < j - 1 implies #[trigger] t[i] != '\n' by {
            assert(t[i] == s[i + 1]);
        }
        assert(s[0] != '\n');
        lemma_first_newline(t, j - 1);
    }
}

pub proof fn lemma_first_newline_props(s: Seq<char>)
    ensures
        first_newline(s) <= s.len(),
        forall|i: int| 0 <= i < first_newline(s) ==> #[trigger] s[i] != '\n',
        first_newline(s) < s.len() ==> s[first_newline(s) as int] == '\n',
    decreases s.len(),
{
    if s.len() > 0 && s[0] != '\n' {
        let t = s.drop_first();
        lemma_first_newline_props(t);
        assert forall|i: int| 0 <= i < first_newline(s) implies #[trigger] s[i] != '\n' by {
            if i > 0 {
                assert(s[i] == t[i - 1]);
            }
        }
    }
}

/// The first line break of `s` is at `k` when none comes before it.
pub proof fn lemma_first_newline_c2(s: Seq<char>, k: int)
    requires
        0 <= k < s.len(),
        s[k] == '\n',
        forall|i: int| 0 <= i < k ==> #[trigger] s[i] != '\n',
    ensures
        first_newline(s) == k,
{
    lemma_first_newline(s, k);
}

/// The lines of a text that ends with a line break, followed by more text,
/// are its lines followed by those of the rest.
pub proof fn lemma_lines_append(u: Seq<char>, y: Seq<char>)
    requires
        u.len() == 0 || u.last() == '\n',
    ensures
        lines(u + y) == lines(u) + lines(y),
    decreases u.len(),
{
    if u.len() == 0 {
        assert(u + y =~= y);
        assert(lines(u) + lines(y) =~= lines(y));
    } else {
        lemma_first_newline_props(u);
        let k = first_newline(u) as int;
        if k >= u.len() {
            assert(u[u.len() - 1] == '\n');
        }
        assert(k < u.len());
        let s = u + y;
        assert forall|i: int| 0 <= i < k implies #[trigger] s[i] != '\n' by {
            assert(s[i] == u[i]);
        }
        lemma_first_newline(s, k);
        let rest = u.skip(k + 1);
        assert(s.take(k) =~= u.take(k));
        assert(s.skip(k + 1) =~= rest + y);
        if rest.len() > 0 {
            assert(rest.last() == u.last());
        }
        lemma_lines_append(rest, y);
        assert(lines(s) =~= lines(u) + lines(y));
    }
}

/// The lines of a text without a line break, followed by a line break: the
/// text itself as one line, a final carriage return dropped.
pub proof fn lemma_lines_single(w: Seq<char>)
    requires
        forall|i: int| 0 <= i < w.len() ==> #[trigger] w[i] != '\n',
    ensures
        w.len() > 0 ==> lines(w) == seq![w],
        lines(w + seq!['\n']) == seq![strip_cr(w)],
{
    if w.len() > 0 {
        lemma_first_newline(w, w.len() as int);
    }
    let s = w + seq!['\n'];
    assert forall|i: int| 0 <= i < w.len() implies #[trigger] s[i] != '\n' by {
        assert(s[i] == w[i]);
    }
    lemma_first_newline(s, w.len() as int);
    assert(s.take(w.len() as int) =~= w);
    assert(s.skip(w.len() + 1int) =~= Seq::<char>::empty());
    assert(s.len() > 0);
    assert(lines(Seq::<char>::empty()) == Seq::<Seq<char>>::empty());
    assert(lines(s) =~= seq![strip_cr(w)]);
}

proof fn lemma_trim_start_push<A>(s: Seq<A>, strip: spec_fn(A) -> bool, c: A)
    requires
        strip(c),
    ensures
        trim_start_by(s, strip).len() > 0 ==> trim_start_by(s.push(c), strip) == trim_start_by(
            s,
            strip,
        ).push(c),
        trim_start_by(s, strip).len() == 0 ==> trim_start_by(s.push(c), strip).len() == 0,
    decreases s.len(),
{
    if s.len() == 0 {
        assert(s.push(c).drop_first() =~= Seq::<A>::empty());
        assert(trim_start_by(Seq::<A>::empty(), strip) == Seq::<A>::empty());
    } else if strip(s[0]) {
        assert(s.push(c).drop_first() =~= s.drop_first().push(c));
        lemma_trim_start_push(s.drop_first(), strip, c);
    }
}

/// An element that trimming strips, added at the end, is trimmed away again.
pub proof fn lemma_trim_push_stripped<A>(s: Seq<A>, strip: spec_fn(A) -> bool, c: A)
    requires
        strip(c),
    ensures
        trim_by(s.push(c), strip) == trim_by(s, strip),
{
    lemma_trim_start_push(s, strip, c);
    let t = trim_start_by(s, strip);
    if t.len() > 0 {
        assert(t.push(c).drop_last() =~= t);
    } else {
        let u = trim_start_by(s.push(c), strip);
        assert(u =~= Seq::<A>::empty());
        assert(t =~= Seq::<A>::empty());
    }
}

/// The lines of the text `s`.
pub fn split_lines(s: &Vec<char>) -> (r: Vec<Vec<char>>)
    ensures
        r.deep_view() == lines(s@),
{
    let n = s.len();
    let mut out: Vec<Vec<char>> = Vec::new();
    let mut cur: Vec<char> = Vec::new();
    let mut start: usize = 0;
    let mut i: usize = 0;
    assert(s@.skip(0) =~= s@);
    while i < n
        invariant
            start <= i <= n == s.len(),
            cur@ == s@.subrange(start as int, i as int),
            forall|k: int| start <= k < i ==> #[trigger] s@[k] != '\n',
            lines(s@) == out.deep_view() + lines(s@.skip(start as int)),
        decreases n - i,
    {
        if s[i] == '\n' {
            let ghost t = s@.skip(start as int);
            proof {
                assert forall|k: int| 0 <= k < i - start implies #[trigger] t[k] != '\n' by {
                    assert(t[k] == s@[k + start]);
                }
                lemma_first_newline(t, i - start);
                assert(t.take(i - start) =~= cur@);
                assert(t.skip(i - start + 1) =~= s@.skip(i + 1));
            }
            let mut line = cur;
            let len = line.len();
            if len > 0 && line[len - 1] == '\r' {
                line.pop();
            }
            proof {
                assert(line@ == strip_cr(cur@));
            }
            let ghost before = out.deep_view();
            let ghost old_out = out@;
            out.push(line);
            proof {
                assert forall|k: int| 0 <= k < out.len() implies #[trigger] out.deep_view()[k]
                    == before.push(strip_cr(cur@))[k] by {
                    if k < old_out.len() {
                        assert(out@[k] == old_out[k]);
                    }
                }
                assert(out.deep_view() =~= before.push(strip_cr(cur@)));
                assert(lines(s@) =~= out.deep_view() + lines(s@.skip(i + 1)));
            }
            cur = Vec::new();
            start = i + 1;
        } else {
            cur.push(s[i]);
            proof {
                assert(s@.subrange(start as int, i + 1) =~= s@.subrange(
                    start as int,
                    i as int,
                ).push(s@[i as int]));
            }
        }
        i = i + 1;
    }
    let ghost t = s@.skip(start as int);
    if start < n {
        proof {
            assert forall|k: int| 0 <= k < t.len() implies #[trigger] t[k] != '\n' by {
                assert(t[k] == s@[k + start]);
            }
            lemma_first_newline(t, t.len() as int);
            assert(t =~= cur@);
        }
        let ghost before = out.deep_view();
        let ghost old_out = out@;
        out.push(cur);
        proof {
            assert forall|k: int| 0 <= k < out.len() implies #[trigger] out.deep_view()[k]
                == before.push(t)[k] by {
                if k < old_out.len() {
                    assert(out@[k] == old_out[k]);
                }
            }
            assert(out.deep_view() =~= before.push(t));
        }
    } else {
        proof {
            assert(out.deep_view() + lines(t) =~= out.deep_view());
        }
    }
    out
}

// ---------------------------------------------------------------------------
// Substrings
// ---------------------------------------------------------------------------

/// Whether `needle` occurs in `hay` starting at index `i`.
pub open spec fn occurs_at<A>(hay: Seq<A>, needle: Seq<A>, i: int) -> bool {
    0 <= i && i + needle.len() <= hay.len() && hay.subrange(i, i + needle.len()) == needle
}

/// Whether `needle` occurs anywhere in `hay`.
pub open spec fn contains_seq<A>(hay: Seq<A>, needle: Seq<A>) -> bool {
    exists|i: int| occurs_at(hay, needle, i)
}

/// Whether `needle` occurs in `hay`, as `str::contains` answers it.
pub fn contains_chars(hay: &Vec<char>, needle: &Vec<char>) -> (b: bool)
    ensures
        b == contains_seq(hay@, needle@),
{
    let n = hay.len();
    let m = needle.len();
    if m > n {
        proof {
            assert forall|i: int| !occurs_at(hay@, needle@, i) by {}
        }
        return false;
    }
    let mut i: usize = 0;
    while i <= n - m
        invariant
            m <= n == hay.len(),
            m == needle.len(),
            forall|k: int| 0 <= k < i ==> !occurs_at(hay@, needle@, k),
        decreases n - m + 1 - i,
    {
        let mut j: usize = 0;
        let mut same = true;
        while j < m
            invariant
                i + m <= n == hay.len(),
                m == needle.len(),
                j <= m,
                same == (forall|k: int| 0 <= k < j ==> hay@[i + k] == needle@[k]),
            decreases m - j,
        {
            if hay[i + j] != needle[j] {
                same = false;
            }
            j = j + 1;
        }
        if same {
            proof {
                assert(hay@.subrange(i as int, i + m) =~= needle@);
                assert(occurs_at(hay@, needle@, i as int));
            }
            return true;
        }
        proof {
            assert(!occurs_at(hay@, needle@, i as int)) by {
                if occurs_at(hay@, needle@, i as int) {
                    let k = choose|k: int| 0 <= k < m && hay@[i + k] != needle@[k];
                    assert(hay@.subrange(i as int, i + m)[k] == hay@[i + k]);
                }
            }
        }
        i = i + 1;
    }
    proof {
        assert forall|k: int| !occurs_at(hay@, needle@, k) by {
            if 0 <= k < i {
            } else if k >= i {
                assert(k + m > n);
            }
        }
    }
    false
}

// ---------------------------------------------------------------------------
// Conversions
// ---------------------------------------------------------------------------

/// The characters of `s`, in order.
pub fn str_chars(s: &str) -> (r: Vec<char>)
    ensures
        r@ == s@,
{
    broadcast use vstd::string::group_string_axioms;

    let mut r: Vec<char> = Vec::new();
    for c in it: s.chars()
        invariant
            r@ == it.seq().take(it.index() as int),
    {
        r.push(c);
    }
    r
}

/// Appends `c` to `s` (`String::push`).
#[verifier::external_body]
pub(crate) fn push_char(s: &mut String, c: char)
    ensures
        final(s)@ == old(s)@.push(c),
{
    s.push(c);
}

/// The string made of the characters `cs`.
pub fn string_from_chars(cs: &Vec<char>) -> (r: String)
    ensures
        r@ == cs@,
{
    let mut r = String::new();
    let mut i: usize = 0;
    while i < cs.len()
        invariant
            i <= cs.len(),
            r@ == cs@.take(i as int),
        decreases cs.len() - i,
    {
        push_char(&mut r, cs[i]);
        proof {
            assert(cs@.take(i + 1) =~= cs@.take(i as int).push(cs@[i as int]));
        }
        i = i + 1;
    }
    assert(cs@.take(cs.len() as int) =~= cs@);
    r
}

/// `std::str::from_utf8`. Its documentation says it succeeds exactly when the
/// bytes are valid UTF-8, and that the string it returns is made of those very
/// bytes; the error value is dropped here.
#[verifier::external_body]
pub(crate) fn utf8_str(bytes: &[u8]) -> (r: Option<&str>)
    ensures
        r is Some <==> valid_utf8(bytes@),
        r matches Some(t) ==> t.spec_bytes() == bytes@,
{
    match std::str::from_utf8(bytes) {
        Ok(t) => Some(t),
        Err(_) => None,
    }
}

/// The characters that valid UTF-8 `bytes` encode, if they are valid.
pub fn decode_utf8_text(bytes: &[u8]) -> (r: Option<String>)
    ensures
        r is Some <==> valid_utf8(bytes@),
        r matches Some(t) ==> t@ == decode_utf8(bytes@),
{
    match utf8_str(bytes) {
        Some(t) => {
            proof {
                encode_utf8_decode_utf8(t@);
            }
            Some(t.to_owned())
        },
        None => None,
    }
}

/// What `String::from_utf8_lossy` makes of `bytes`: their decoding, with each
/// invalid sequence replaced by U+FFFD.
pub uninterp spec fn utf8_lossy(bytes: Seq<u8>) -> Seq<char>;

/// `String::from_utf8_lossy`. Its result depends on the bytes alone; on valid
/// UTF-8 it is their decoding, as its documentation says. How invalid
/// sequences are replaced is named, not stated.
#[verifier::external_body]
pub(crate) fn lossy_utf8(bytes: &[u8]) -> (r: String)
    ensures
        r@ == utf8_lossy(bytes@),
        valid_utf8(bytes@) ==> r@ == decode_utf8(bytes@),
{
    String::from_utf8_lossy(bytes).into_owned()
}

} // verus!
