//! The judgements behind the golden-rules assertions.
//!
//! Each function here decides one rule on plain values: a parsed operator
//! manifest, source text, or a tool's captured run. Running the tool and
//! reading the files is the caller's part; a broken rule comes back as an
//! error value that names it.

use vstd::prelude::*;
use crate::keyed::{StrMap, StrSet, has_key, keys_of, seq_lt, strictly_ascending, lemma_seq_lt_asymmetric, lemma_seq_lt_irreflexive};
use crate::text::{contains_chars, contains_seq, lines, split_lines, str_chars, string_from_chars, trim, trim_chars};
use crate::types::OperatorManifest;
use crate::json::{JsonParseError, has_member, json_accepts_bytes, json_accepts_text, json_from_slice, json_from_str, json_get, json_value_of_bytes, json_value_of_text, parse_error_of};
use crate::pipeline::ToolRun;
use crate::text::{decode_utf8_text, lossy_utf8, utf8_lossy, strip_cr, white_space, lemma_first_newline_props, lemma_lines_append, lemma_lines_single, lemma_trim_bounds, lemma_trim_push_stripped, first_newline, occurs_at};
use vstd::utf8::{valid_utf8, decode_utf8};

verus! {

// ---------------------------------------------------------------------------
// Refusal codes in source text
// ---------------------------------------------------------------------------

/// A character that a refusal code may hold: an ASCII capital or `_`.
pub open spec fn is_code_char(c: char) -> bool {
    ('A' <= c && c <= 'Z') || c == '_'
}

/// A quoted refusal code spans `p..=q` of `s`: a `"`, then `E_` and further
/// code characters, then a closing `"`.
pub open spec fn quoted_code_at(s: Seq<char>, p: int, q: int) -> bool {
    &&& 0 <= p
    &&& p + 3 <= q < s.len()
    &&& s[p] == '"'
    &&& s[p + 1] == 'E'
    &&& s[p + 2] == '_'
    &&& s[q] == '"'
    &&& forall|i: int| p < i < q ==> is_code_char(#[trigger] s[i])
}

/// `code` stands in `s` as a string literal `"E_..."` made of code characters.
pub open spec fn is_quoted_code(s: Seq<char>, code: Seq<char>) -> bool {
    exists|p: int, q: int| quoted_code_at(s, p, q) && code == s.subrange(p + 1, q)
}

/// The codes quoted in `s` that start at a position before `bound`.
pub open spec fn is_quoted_code_before(s: Seq<char>, code: Seq<char>, bound: int) -> bool {
    exists|p: int, q: int| p < bound && quoted_code_at(s, p, q) && code == s.subrange(p + 1, q)
}

/// Every extracted code starts with `E_` and holds only capitals and `_`.
pub proof fn lemma_quoted_code_shape(s: Seq<char>, code: Seq<char>)
    requires
        is_quoted_code(s, code),
    ensures
        code.len() >= 2,
        code[0] == 'E',
        code[1] == '_',
        forall|i: int|
            0 <= i < code.len() ==> ('A' <= #[trigger] code[i] && code[i] <= 'Z') || code[i] == '_',
{
    let (p, q) = choose|p: int, q: int| quoted_code_at(s, p, q) && code == s.subrange(p + 1, q);
    assert forall|i: int| 0 <= i < code.len() implies ('A' <= #[trigger] code[i] && code[i] <= 'Z')
        || code[i] == '_' by {
        assert(code[i] == s[p + 1 + i]);
    }
}

/// Any string literal `"E_..."` made only of ASCII capitals and `_` is an
/// extracted code, wherever it stands in the text.
pub proof fn lemma_capital_literal_is_code(
    before: Seq<char>,
    code: Seq<char>,
    after: Seq<char>,
)
    requires
        code.len() >= 2,
        code[0] == 'E',
        code[1] == '_',
        forall|i: int|
            0 <= i < code.len() ==> ('A' <= #[trigger] code[i] && code[i] <= 'Z') || code[i] == '_',
    ensures
        is_quoted_code(before + seq!['"'] + code + seq!['"'] + after, code),
{
    let s = before + seq!['"'] + code + seq!['"'] + after;
    let p = before.len() as int;
    let q = p + 1 + code.len();
    assert(s[p] == '"');
    assert(s[p + 1] == code[0]);
    assert(s[p + 2] == code[1]);
    assert(s[q] == '"');
    assert forall|i: int| p < i < q implies is_code_char(#[trigger] s[i]) by {
        assert(s[i] == code[i - p - 1]);
    }
    assert(s.subrange(p + 1, q) =~= code);
    assert(quoted_code_at(s, p, q));
}

/// No extracted code holds a character other than an ASCII capital or `_`:
/// a quoted literal with a digit, a lower-case letter or a space in it is no
/// code.
pub proof fn lemma_code_excludes_other_chars(s: Seq<char>, code: Seq<char>, i: int)
    requires
        is_quoted_code(s, code),
        0 <= i < code.len(),
    ensures
        !('0' <= code[i] && code[i] <= '9'),
        !('a' <= code[i] && code[i] <= 'z'),
        code[i] != ' ' && code[i] != '"',
{
    lemma_quoted_code_shape(s, code);
    assert(('A' <= code[i] && code[i] <= 'Z') || code[i] == '_');
}

/// A code found in `s` stays a code of `s` with text added on either side.
proof fn lemma_quoted_code_shift(s: Seq<char>, before: Seq<char>, after: Seq<char>, code: Seq<char>)
    requires
        is_quoted_code(s, code),
    ensures
        is_quoted_code(before + s + after, code),
{
    let (p, q) = choose|p: int, q: int| quoted_code_at(s, p, q) && code == s.subrange(p + 1, q);
    let t = before + s + after;
    let k = before.len() as int;
    assert forall|i: int| 0 <= i < s.len() implies #[trigger] t[i + k] == s[i] by {}
    assert forall|i: int| p + k < i < q + k implies is_code_char(#[trigger] t[i]) by {
        assert(t[i] == s[i - k]);
    }
    assert(quoted_code_at(t, p + k, q + k));
    assert(t.subrange(p + k + 1, q + k) =~= s.subrange(p + 1, q));
}

/// The codes of two texts joined by a line break are the codes of the one
/// and of the other: no code spans a line break.
pub proof fn lemma_quoted_codes_of_joined_text(a: Seq<char>, b: Seq<char>, code: Seq<char>)
    ensures
        is_quoted_code(a + seq!['\n'] + b, code) <==> is_quoted_code(a, code) || is_quoted_code(
            b,
            code,
        ),
{
    let s = a + seq!['\n'] + b;
    let m = a.len() as int;
    assert(s[m] == '\n');
    if is_quoted_code(a, code) {
        lemma_quoted_code_shift(a, Seq::<char>::empty(), seq!['\n'] + b, code);
        assert(Seq::<char>::empty() + a + (seq!['\n'] + b) =~= s);
    }
    if is_quoted_code(b, code) {
        lemma_quoted_code_shift(b, a + seq!['\n'], Seq::<char>::empty(), code);
        assert(a + seq!['\n'] + b + Seq::<char>::empty() =~= s);
    }
    if is_quoted_code(s, code) {
        let (p, q) = choose|p: int, q: int| quoted_code_at(s, p, q) && code == s.subrange(p + 1, q);
        if q < m {
            assert forall|i: int| p < i < q implies is_code_char(#[trigger] a[i]) by {
                assert(a[i] == s[i]);
            }
            assert(s[p] == a[p] && s[p + 1] == a[p + 1] && s[p + 2] == a[p + 2] && s[q] == a[q]);
            assert(quoted_code_at(a, p, q));
            assert(a.subrange(p + 1, q) =~= s.subrange(p + 1, q));
        } else if p > m {
            let k = m + 1;
            assert forall|i: int| p - k < i < q - k implies is_code_char(#[trigger] b[i]) by {
                assert(b[i] == s[i + k]);
            }
            assert(s[p] == b[p - k] && s[p + 1] == b[p - k + 1] && s[p + 2] == b[p - k + 2]
                && s[q] == b[q - k]);
            assert(quoted_code_at(b, p - k, q - k));
            assert(b.subrange(p - k + 1, q - k) =~= s.subrange(p + 1, q));
        } else {
            if p < m && m < q {
                assert(is_code_char(s[m]));
            }
        }
    }
}

fn is_code_character(c: char) -> (b: bool)
    ensures
        b == is_code_char(c),
{
    ('A' <= c && c <= 'Z') || c == '_'
}

/// Extract `E_` codes from source text: every string literal of the form
/// `"E_UPPER_CASE"`, made of ASCII capitals and underscores only.
///
/// A literal that runs past the end of its line holds a line break and so is
/// no code; surrounding white space never is part of one.
pub fn extract_e_codes_from_source(source: &str) -> (codes: StrSet)
    ensures
        forall|c: Seq<char>| #[trigger] has_key(codes@, c) <==> is_quoted_code(source@, c),
        forall|c: Seq<char>, i: int|
            has_key(codes@, c) && 0 <= i < c.len() ==> ('A' <= #[trigger] c[i] && c[i] <= 'Z')
                || c[i] == '_',
{
    let s = str_chars(source);
    let n = s.len();
    let mut codes: StrSet = StrMap::new();
    let mut p: usize = 0;
    while p < n
        invariant
            p <= n == s.len(),
            s@ == source@,
            forall|c: Seq<char>| #[trigger] has_key(codes@, c) <==> is_quoted_code_before(
                s@,
                c,
                p as int,
            ),
        decreases n - p,
    {
        let ghost old_codes = codes@;
        if n - p > 2 && s[p] == '"' && s[p + 1] == 'E' && s[p + 2] == '_' {
            let mut q: usize = p + 3;
            while q < n && is_code_character(s[q])
                invariant
                    p + 3 <= q <= n == s.len(),
                    forall|i: int| p < i < q ==> is_code_char(#[trigger] s@[i]),
                decreases n - q,
            {
                q = q + 1;
            }
            if q < n && s[q] == '"' {
                let mut piece: Vec<char> = Vec::new();
                let mut k: usize = p + 1;
                while k < q
                    invariant
                        p + 1 <= k <= q < n == s.len(),
                        piece@ == s@.subrange(p + 1, k as int),
                    decreases q - k,
                {
                    piece.push(s[k]);
                    proof {
                        assert(s@.subrange(p + 1, k + 1) =~= s@.subrange(p + 1, k as int).push(
                            s@[k as int],
                        ));
                    }
                    k = k + 1;
                }
                let code = string_from_chars(&piece);
                codes.insert_key(code);
                proof {
                    assert(quoted_code_at(s@, p as int, q as int));
                    assert forall|c: Seq<char>| #[trigger] has_key(codes@, c)
                        <==> is_quoted_code_before(s@, c, p + 1) by {
                        if is_quoted_code_before(s@, c, p + 1) {
                            let (p2, q2) = choose|p2: int, q2: int|
                                p2 < p + 1 && quoted_code_at(s@, p2, q2) && c == s@.subrange(
                                    p2 + 1,
                                    q2,
                                );
                            if p2 < p {
                                assert(is_quoted_code_before(s@, c, p as int));
                            } else {
                                if q2 < q {
                                    assert(is_code_char(s@[q2]));
                                } else if q2 > q {
                                    assert(is_code_char(s@[q as int]));
                                }
                                assert(c == piece@);
                            }
                        }
                        if has_key(codes@, c) {
                            if c != piece@ {
                                assert(has_key(old_codes, c));
                                let (p2, q2) = choose|p2: int, q2: int|
                                    p2 < p && quoted_code_at(s@, p2, q2) && c == s@.subrange(
                                        p2 + 1,
                                        q2,
                                    );
                                assert(is_quoted_code_before(s@, c, p + 1));
                            } else {
                                assert(is_quoted_code_before(s@, c, p + 1));
                            }
                        }
                    }
                }
            } else {
                proof {
                    assert forall|c: Seq<char>| #[trigger] has_key(codes@, c)
                        <==> is_quoted_code_before(s@, c, p + 1) by {
                        if is_quoted_code_before(s@, c, p + 1) {
                            let (p2, q2) = choose|p2: int, q2: int|
                                p2 < p + 1 && quoted_code_at(s@, p2, q2) && c == s@.subrange(
                                    p2 + 1,
                                    q2,
                                );
                            if p2 == p {
                                if q2 < q {
                                    assert(is_code_char(s@[q2]));
                                } else if q2 > q {
                                    assert(is_code_char(s@[q as int]));
                                }
                            }
                            assert(is_quoted_code_before(s@, c, p as int));
                        }
                        if has_key(codes@, c) {
                            let (p2, q2) = choose|p2: int, q2: int|
                                p2 < p && quoted_code_at(s@, p2, q2) && c == s@.subrange(
                                    p2 + 1,
                                    q2,
                                );
                            assert(is_quoted_code_before(s@, c, p + 1));
                        }
                    }
                }
            }
        } else {
            proof {
                assert forall|c: Seq<char>| #[trigger] has_key(codes@, c) <==> is_quoted_code_before(
                    s@,
                    c,
                    p + 1,
                ) by {
                    if is_quoted_code_before(s@, c, p + 1) {
                        let (p2, q2) = choose|p2: int, q2: int|
                            p2 < p + 1 && quoted_code_at(s@, p2, q2) && c == s@.subrange(
                                p2 + 1,
                                q2,
                            );
                        assert(p2 != p);
                        assert(is_quoted_code_before(s@, c, p as int));
                    }
                    if has_key(codes@, c) {
                        let (p2, q2) = choose|p2: int, q2: int|
                            p2 < p && quoted_code_at(s@, p2, q2) && c == s@.subrange(p2 + 1, q2);
                        assert(is_quoted_code_before(s@, c, p + 1));
                    }
                }
            }
        }
        p = p + 1;
    }
    proof {
        assert forall|c: Seq<char>| #[trigger] has_key(codes@, c) <==> is_quoted_code(source@, c) by {
            if is_quoted_code(source@, c) {
                let (p2, q2) = choose|p2: int, q2: int|
                    quoted_code_at(s@, p2, q2) && c == s@.subrange(p2 + 1, q2);
                assert(is_quoted_code_before(s@, c, n as int));
            }
            if has_key(codes@, c) {
                let (p2, q2) = choose|p2: int, q2: int|
                    p2 < n && quoted_code_at(s@, p2, q2) && c == s@.subrange(p2 + 1, q2);
            }
        }
        assert forall|c: Seq<char>, i: int|
            has_key(codes@, c) && 0 <= i < c.len() implies ('A' <= #[trigger] c[i] && c[i] <= 'Z')
                || c[i] == '_' by {
            lemma_quoted_code_shape(source@, c);
        }
    }
    codes
}

// ---------------------------------------------------------------------------
// Production source without its test module
// ---------------------------------------------------------------------------

/// The line that opens a source file's test module, `#[cfg(test)]`.
pub open spec fn cfg_test_marker() -> Seq<char> {
    seq!['#', '[', 'c', 'f', 'g', '(', 't', 'e', 's', 't', ')', ']']
}

/// The lines before the first one that trims to `#[cfg(test)]`, each followed
/// by `'\n'`.
pub open spec fn kept_lines(ls: Seq<Seq<char>>) -> Seq<char>
    decreases ls.len(),
{
    if ls.len() == 0 {
        seq![]
    } else if trim(ls[0]) == cfg_test_marker() {
        seq![]
    } else {
        ls[0] + seq!['\n'] + kept_lines(ls.drop_first())
    }
}

/// Source text cut at its test module: the lines before the first one that
/// trims to `#[cfg(test)]`, each ended by `'\n'`.
pub open spec fn production_source(source: Seq<char>) -> Seq<char> {
    kept_lines(lines(source))
}

/// Truncate source at the `#[cfg(test)]` module boundary, so that codes in
/// test fixtures are not taken for codes the tool emits.
pub fn strip_test_module(source: &str) -> (result: String)
    ensures
        result@ == production_source(source@),
{
    let s = str_chars(source);
    let ls = split_lines(&s);
    let ghost lv = ls.deep_view();
    let marker: Vec<char> = vec!['#', '[', 'c', 'f', 'g', '(', 't', 'e', 's', 't', ')', ']'];
    assert(marker@ =~= cfg_test_marker());
    let mut out: Vec<char> = Vec::new();
    let mut i: usize = 0;
    let mut stop = false;
    assert(lv.skip(0) =~= lv);
    while i < ls.len() && !stop
        invariant
            i <= ls.len(),
            lv == ls.deep_view(),
            lv == lines(source@),
            marker@ == cfg_test_marker(),
            kept_lines(lv) == out@ + kept_lines(lv.skip(i as int)),
            stop ==> kept_lines(lv.skip(i as int)) == Seq::<char>::empty(),
        decreases ls.len() - i + (if stop { 0int } else { 1int }),
    {
        let line = &ls[i];
        assert(line@ == lv[i as int]);
        let t = trim_chars(line);
        assert(lv.skip(i as int).drop_first() =~= lv.skip(i + 1));
        if crate::keyed::chars_eq(&t, &marker) {
            assert(kept_lines(lv.skip(i as int)) == Seq::<char>::empty());
            stop = true;
        } else {
        let ghost before = out@;
        let mut j: usize = 0;
        while j < line.len()
            invariant
                j <= line.len(),
                out@ == before + line@.take(j as int),
            decreases line.len() - j,
        {
            out.push(line[j]);
            proof {
                assert(line@.take(j + 1) =~= line@.take(j as int).push(line@[j as int]));
            }
            j = j + 1;
        }
        out.push('\n');
        proof {
            assert(line@.take(line.len() as int) =~= line@);
            assert(out@ =~= before + lv[i as int] + seq!['\n']);
        }
        i = i + 1;
        }
    }
    if !stop {
        assert(lv.skip(i as int) =~= Seq::<Seq<char>>::empty());
    }
    assert(out@ + Seq::<char>::empty() =~= out@);
    string_from_chars(&out)
}

/// The lines `ls`, each followed by `'\n'`.
pub open spec fn joined_lines(ls: Seq<Seq<char>>) -> Seq<char>
    decreases ls.len(),
{
    if ls.len() == 0 {
        seq![]
    } else {
        ls[0] + seq!['\n'] + joined_lines(ls.drop_first())
    }
}

/// Cutting at the test module keeps exactly the lines before the first line
/// that trims to `#[cfg(test)]` (all of them when there is none), so nothing
/// from that line on is scanned.
pub proof fn lemma_production_source_is_prefix(ls: Seq<Seq<char>>)
    ensures
        exists|k: int|
            #![trigger ls.take(k)]
            0 <= k <= ls.len() && kept_lines(ls) == joined_lines(ls.take(k)) && (forall|i: int|
                0 <= i < k ==> trim(#[trigger] ls[i]) != cfg_test_marker()) && (k < ls.len()
                ==> trim(ls[k]) == cfg_test_marker()),
    decreases ls.len(),
{
    if ls.len() == 0 {
        assert(ls.take(0) =~= ls);
    } else if trim(ls[0]) == cfg_test_marker() {
        assert(ls.take(0) =~= Seq::<Seq<char>>::empty());
    } else {
        let rest = ls.drop_first();
        lemma_production_source_is_prefix(rest);
        let k = choose|k: int|
            #![trigger rest.take(k)]
            0 <= k <= rest.len() && kept_lines(rest) == joined_lines(rest.take(k)) && (forall|
                i: int,
            | 0 <= i < k ==> trim(#[trigger] rest[i]) != cfg_test_marker()) && (k < rest.len()
                ==> trim(rest[k]) == cfg_test_marker());
        let t = ls.take(k + 1);
        assert(t[0] == ls[0]);
        assert(t.drop_first() =~= rest.take(k));
        assert forall|i: int| 0 <= i < k + 1 implies trim(#[trigger] ls[i]) != cfg_test_marker() by {
            if i > 0 {
                assert(ls[i] == rest[i - 1]);
            }
        }
        if k + 1 < ls.len() {
            assert(ls[k + 1] == rest[k]);
        }
    }
}

/// The production sources of a set of files, each followed by `'\n'`, one
/// after another.
pub open spec fn combined_source(contents: Seq<Seq<char>>) -> Seq<char>
    decreases contents.len(),
{
    if contents.len() == 0 {
        seq![]
    } else {
        combined_source(contents.drop_last()) + production_source(contents.last()) + seq!['\n']
    }
}

/// The character sequences of a list of strings.
pub open spec fn texts_view(v: Seq<String>) -> Seq<Seq<char>> {
    v.map_values(|s: String| s@)
}

/// The production parts of the given source files, concatenated as one text,
/// each part followed by a line break.
pub fn combine_sources(contents: &Vec<String>) -> (combined: Vec<char>)
    ensures
        combined@ == combined_source(texts_view(contents@)),
{
    let ghost cv = texts_view(contents@);
    let mut out: Vec<char> = Vec::new();
    let mut i: usize = 0;
    while i < contents.len()
        invariant
            i <= contents.len(),
            cv == texts_view(contents@),
            out@ == combined_source(cv.take(i as int)),
        decreases contents.len() - i,
    {
        let stripped = strip_test_module(contents[i].as_str());
        let part = str_chars(stripped.as_str());
        let ghost before = out@;
        let mut j: usize = 0;
        while j < part.len()
            invariant
                j <= part.len(),
                out@ == before + part@.take(j as int),
            decreases part.len() - j,
        {
            out.push(part[j]);
            proof {
                assert(part@.take(j + 1) =~= part@.take(j as int).push(part@[j as int]));
            }
            j = j + 1;
        }
        out.push('\n');
        proof {
            let t = cv.take(i + 1);
            assert(t.drop_last() =~= cv.take(i as int));
            assert(t.last() == contents@[i as int]@);
            assert(part@.take(part.len() as int) =~= part@);
            assert(out@ =~= combined_source(t.drop_last()) + production_source(t.last()) + seq![
                '\n',
            ]);
        }
        i = i + 1;
    }
    assert(cv.take(contents.len() as int) =~= cv);
    out
}

// ---------------------------------------------------------------------------
// Refusal codes of a manifest
// ---------------------------------------------------------------------------

/// `m` declares refusal code `c`, at the top level or under a subcommand.
pub open spec fn declares_refusal(m: OperatorManifest, c: Seq<char>) -> bool {
    ||| exists|i: int| 0 <= i < m.refusals.len() && #[trigger] m.refusals@[i].code@ == c
    ||| exists|j: int, i: int|
        0 <= j < m.subcommands.len() && 0 <= i < m.subcommands@[j].refusals.len()
            && #[trigger] m.subcommands@[j].refusals@[i].code@ == c
}

/// Every refusal entry that the manifest lists declares its code: each entry
/// at the top level, and each entry of every subcommand.
pub proof fn lemma_listed_refusals_declared(m: OperatorManifest)
    ensures
        forall|i: int| 0 <= i < m.refusals.len() ==> declares_refusal(m, #[trigger] m.refusals@[i].code@),
        forall|j: int, i: int|
            0 <= j < m.subcommands.len() && 0 <= i < m.subcommands@[j].refusals.len()
                ==> declares_refusal(m, #[trigger] m.subcommands@[j].refusals@[i].code@),
{
}

/// A manifest declares only the codes of entries that it lists.
pub proof fn lemma_declared_codes_are_listed(m: OperatorManifest, c: Seq<char>)
    requires
        declares_refusal(m, c),
    ensures
        (exists|i: int| 0 <= i < m.refusals.len() && m.refusals@[i].code@ == c) || (exists|
            j: int,
            i: int,
        |
            0 <= j < m.subcommands.len() && 0 <= i < m.subcommands@[j].refusals.len()
                && m.subcommands@[j].refusals@[i].code@ == c),
{
}

/// Collect all `E_` codes declared in the manifest, including those of the
/// subcommands' refusals.
pub fn collect_refusal_codes_from_manifest(manifest: &OperatorManifest) -> (codes: StrSet)
    ensures
        forall|c: Seq<char>| #[trigger] has_key(codes@, c) <==> declares_refusal(*manifest, c),
        forall|i: int|
            0 <= i < manifest.refusals.len() ==> has_key(codes@, #[trigger] manifest.refusals@[i].code@),
        forall|j: int, i: int|
            0 <= j < manifest.subcommands.len() && 0 <= i < manifest.subcommands@[j].refusals.len()
                ==> has_key(codes@, #[trigger] manifest.subcommands@[j].refusals@[i].code@),
{
    let mut codes: StrSet = StrMap::new();
    let mut i: usize = 0;
    while i < manifest.refusals.len()
        invariant
            i <= manifest.refusals.len(),
            forall|c: Seq<char>| #[trigger] has_key(codes@, c) <==> exists|k: int|
                0 <= k < i && #[trigger] manifest.refusals@[k].code@ == c,
        decreases manifest.refusals.len() - i,
    {
        codes.insert_key(manifest.refusals[i].code.clone());
        proof {
            assert forall|c: Seq<char>| #[trigger] has_key(codes@, c) <==> exists|k: int|
                0 <= k < i + 1 && #[trigger] manifest.refusals@[k].code@ == c by {
                if c == manifest.refusals@[i as int].code@ {
                    assert(manifest.refusals@[i as int].code@ == c);
                }
            }
        }
        i = i + 1;
    }
    let mut j: usize = 0;
    while j < manifest.subcommands.len()
        invariant
            j <= manifest.subcommands.len(),
            forall|c: Seq<char>| #[trigger] has_key(codes@, c) <==> {
                ||| exists|k: int|
                    0 <= k < manifest.refusals.len() && #[trigger] manifest.refusals@[k].code@ == c
                ||| exists|jj: int, k: int|
                    0 <= jj < j && 0 <= k < manifest.subcommands@[jj].refusals.len()
                        && #[trigger] manifest.subcommands@[jj].refusals@[k].code@ == c
            },
        decreases manifest.subcommands.len() - j,
    {
        let sub = &manifest.subcommands[j];
        let mut k: usize = 0;
        while k < sub.refusals.len()
            invariant
                j < manifest.subcommands.len(),
                *sub == manifest.subcommands@[j as int],
                k <= sub.refusals.len(),
                forall|c: Seq<char>| #[trigger] has_key(codes@, c) <==> {
                    ||| exists|kk: int|
                        0 <= kk < manifest.refusals.len() && #[trigger] manifest.refusals@[kk].code@
                            == c
                    ||| exists|jj: int, kk: int|
                        0 <= jj < j && 0 <= kk < manifest.subcommands@[jj].refusals.len()
                            && #[trigger] manifest.subcommands@[jj].refusals@[kk].code@ == c
                    ||| exists|kk: int| 0 <= kk < k && #[trigger] sub.refusals@[kk].code@ == c
                },
            decreases sub.refusals.len() - k,
        {
            codes.insert_key(sub.refusals[k].code.clone());
            proof {
                assert forall|c: Seq<char>| #[trigger] has_key(codes@, c) <==> {
                    ||| exists|kk: int|
                        0 <= kk < manifest.refusals.len() && #[trigger] manifest.refusals@[kk].code@
                            == c
                    ||| exists|jj: int, kk: int|
                        0 <= jj < j && 0 <= kk < manifest.subcommands@[jj].refusals.len()
                            && #[trigger] manifest.subcommands@[jj].refusals@[kk].code@ == c
                    ||| exists|kk: int| 0 <= kk < k + 1 && #[trigger] sub.refusals@[kk].code@ == c
                } by {
                    if c == sub.refusals@[k as int].code@ {
                        assert(sub.refusals@[k as int].code@ == c);
                    }
                }
            }
            k = k + 1;
        }
        proof {
            assert forall|c: Seq<char>| #[trigger] has_key(codes@, c) <==> {
                ||| exists|kk: int|
                    0 <= kk < manifest.refusals.len() && #[trigger] manifest.refusals@[kk].code@ == c
                ||| exists|jj: int, kk: int|
                    0 <= jj < j + 1 && 0 <= kk < manifest.subcommands@[jj].refusals.len()
                        && #[trigger] manifest.subcommands@[jj].refusals@[kk].code@ == c
            } by {
                if exists|kk: int| 0 <= kk < k && #[trigger] sub.refusals@[kk].code@ == c {
                    let kk = choose|kk: int| 0 <= kk < k && #[trigger] sub.refusals@[kk].code@ == c;
                    assert(manifest.subcommands@[j as int].refusals@[kk].code@ == c);
                }
                if exists|jj: int, kk: int|
                    0 <= jj < j + 1 && 0 <= kk < manifest.subcommands@[jj].refusals.len()
                        && #[trigger] manifest.subcommands@[jj].refusals@[kk].code@ == c {
                    let (jj, kk) = choose|jj: int, kk: int|
                        0 <= jj < j + 1 && 0 <= kk < manifest.subcommands@[jj].refusals.len()
                            && #[trigger] manifest.subcommands@[jj].refusals@[kk].code@ == c;
                    if jj == j {
                        assert(sub.refusals@[kk].code@ == c);
                    }
                }
            }
        }
        j = j + 1;
    }
    proof {
        lemma_listed_refusals_declared(*manifest);
    }
    codes
}

// ---------------------------------------------------------------------------
// The exit-code trinity
// ---------------------------------------------------------------------------

/// One of the exit codes `"0"`, `"1"`, `"2"`.
pub open spec fn is_trinity_code(k: Seq<char>) -> bool {
    k == seq!['0'] || k == seq!['1'] || k == seq!['2']
}

/// The first key, from index `i` on, that is not one of `"0"`, `"1"`, `"2"`.
pub open spec fn first_non_trinity(keys: Seq<Seq<char>>, i: int) -> Option<Seq<char>>
    decreases keys.len() - i,
{
    if i >= keys.len() || i < 0 {
        None
    } else if !is_trinity_code(keys[i]) {
        Some(keys[i])
    } else {
        first_non_trinity(keys, i + 1)
    }
}

/// The exit codes are exactly 0, 1 and 2, code 1 being optional unless
/// `require_1` holds.
pub open spec fn trinity_holds(codes: Seq<(Seq<char>, crate::types::ExitCode)>, require_1: bool) -> bool {
    &&& has_key(codes, seq!['0'])
    &&& require_1 ==> has_key(codes, seq!['1'])
    &&& has_key(codes, seq!['2'])
    &&& first_non_trinity(keys_of(codes), 0) is None
}

/// The first rule of the exit-code trinity that a manifest breaks.
#[derive(Clone, Debug, PartialEq, Eq)]
pub enum TrinityViolation {
    /// Exit code 0 is not declared.
    MissingSuccessCode,
    /// Exit code 1 is required but not declared.
    MissingNegativeCode,
    /// Exit code 2 is not declared.
    MissingRefusalCode,
    /// This exit code, the first in ascending order, is none of 0, 1, 2.
    UndeclaredExitCode(String),
}

impl TrinityViolation {
    /// The text that states the broken rule.
    pub open spec fn text(self) -> Seq<char> {
        match self {
            TrinityViolation::MissingSuccessCode =>
                "R-002/R-007: operator.json must declare exit code 0"@,
            TrinityViolation::MissingNegativeCode =>
                "R-002/R-007: operator.json must declare exit code 1"@,
            TrinityViolation::MissingRefusalCode =>
                "R-002/R-007: operator.json must declare exit code 2"@,
            TrinityViolation::UndeclaredExitCode(k) => "R-002 VIOLATION: operator.json declares exit code "@
                + k@ + " \u{2014} only 0, 1, 2 are permitted"@,
        }
    }

    /// The message that states the broken rule.
    pub fn message(&self) -> (m: String)
        ensures
            m@ == self.text(),
    {
        match self {
            TrinityViolation::MissingSuccessCode => String::from_str(
                "R-002/R-007: operator.json must declare exit code 0",
            ),
            TrinityViolation::MissingNegativeCode => String::from_str(
                "R-002/R-007: operator.json must declare exit code 1",
            ),
            TrinityViolation::MissingRefusalCode => String::from_str(
                "R-002/R-007: operator.json must declare exit code 2",
            ),
            TrinityViolation::UndeclaredExitCode(k) => {
                let mut m = String::from_str("R-002 VIOLATION: operator.json declares exit code ");
                m.append(k.as_str());
                m.append(" \u{2014} only 0, 1, 2 are permitted");
                m
            },
        }
    }
}

fn is_single_char(s: &str, c: char) -> (b: bool)
    ensures
        b == (s@ == seq![c]),
{
    let cs = str_chars(s);
    if cs.len() == 1 && cs[0] == c {
        assert(cs@ =~= seq![c]);
        true
    } else {
        false
    }
}

/// Checks that the manifest declares exactly exit codes 0, 1 and 2. With
/// `require_1` false, code 1 is optional.
#[verifier::loop_isolation(false)]
pub fn assert_exit_codes_trinity(manifest: &OperatorManifest, require_1: bool) -> (res: Result<
    (),
    TrinityViolation,
>)
    ensures
        res is Ok <==> trinity_holds(manifest.exit_codes@, require_1),
        ({
            let codes = manifest.exit_codes@;
            let has0 = has_key(codes, seq!['0']);
            let has1 = has_key(codes, seq!['1']);
            let has2 = has_key(codes, seq!['2']);
            &&& !has0 ==> res == Err::<(), TrinityViolation>(
                TrinityViolation::MissingSuccessCode,
            )
            &&& has0 && require_1 && !has1 ==> res == Err::<(), TrinityViolation>(
                TrinityViolation::MissingNegativeCode,
            )
            &&& has0 && (!require_1 || has1) && !has2 ==> res == Err::<(), TrinityViolation>(
                TrinityViolation::MissingRefusalCode,
            )
            &&& has0 && (!require_1 || has1) && has2 ==> match first_non_trinity(
                keys_of(codes),
                0,
            ) {
                None => res is Ok,
                Some(k) => res matches Err(TrinityViolation::UndeclaredExitCode(s)) && s@ == k,
            }
        }),
{
    let codes = &manifest.exit_codes;
    let ghost keys = keys_of(codes@);
    proof {
        reveal_strlit("0");
        reveal_strlit("1");
        reveal_strlit("2");
        assert("0"@ =~= seq!['0']);
        assert("1"@ =~= seq!['1']);
        assert("2"@ =~= seq!['2']);
    }
    if !codes.contains_key("0") {
        return Err(TrinityViolation::MissingSuccessCode);
    }
    if require_1 && !codes.contains_key("1") {
        return Err(TrinityViolation::MissingNegativeCode);
    }
    if !codes.contains_key("2") {
        return Err(TrinityViolation::MissingRefusalCode);
    }
    let mut i: usize = 0;
    while i < codes.len()
        invariant
            i <= codes@.len(),
            keys == keys_of(codes@),
            first_non_trinity(keys, 0) == first_non_trinity(keys, i as int),
        decreases codes@.len() - i,
    {
        let key = codes.key_at(i);
        if !(is_single_char(key.as_str(), '0') || is_single_char(key.as_str(), '1')
            || is_single_char(key.as_str(), '2')) {
            assert(keys[i as int] == key@);
            return Err(TrinityViolation::UndeclaredExitCode(key.clone()));
        }
        assert(keys[i as int] == key@);
        i = i + 1;
    }
    Ok(())
}

/// Requiring exit code 1 only adds a demand: exit codes that pass the check
/// with it pass without it.
pub proof fn lemma_trinity_require_1_stronger(codes: Seq<(Seq<char>, crate::types::ExitCode)>)
    requires
        trinity_holds(codes, true),
    ensures
        trinity_holds(codes, false),
{
}

/// Exit codes that pass the check declare 0 and 2 and nothing but 0, 1, 2.
pub proof fn lemma_trinity_codes_only(codes: Seq<(Seq<char>, crate::types::ExitCode)>, require_1: bool)
    requires
        trinity_holds(codes, require_1),
    ensures
        forall|k: Seq<char>|
            #[trigger] has_key(codes, k) ==> k == seq!['0'] || k == seq!['1'] || k == seq!['2'],
        has_key(codes, seq!['0']) && has_key(codes, seq!['2']),
        require_1 ==> has_key(codes, seq!['1']),
{
    assert forall|k: Seq<char>| #[trigger] has_key(codes, k) implies k == seq!['0'] || k == seq![
        '1',
    ] || k == seq!['2'] by {
        let i = choose|i: int| 0 <= i < codes.len() && #[trigger] codes[i].0 == k;
        lemma_first_non_trinity_none(keys_of(codes), 0, i);
    }
}

/// Exit codes that declare 0 and 2, and 1 where it is required, and nothing
/// but 0, 1 and 2, pass the check.
pub proof fn lemma_trinity_codes_suffice(
    codes: Seq<(Seq<char>, crate::types::ExitCode)>,
    require_1: bool,
)
    requires
        forall|k: Seq<char>|
            #[trigger] has_key(codes, k) ==> k == seq!['0'] || k == seq!['1'] || k == seq!['2'],
        has_key(codes, seq!['0']) && has_key(codes, seq!['2']),
        require_1 ==> has_key(codes, seq!['1']),
    ensures
        trinity_holds(codes, require_1),
{
    lemma_first_non_trinity_all(codes, 0);
}

proof fn lemma_first_non_trinity_all(codes: Seq<(Seq<char>, crate::types::ExitCode)>, from: int)
    requires
        0 <= from,
        forall|k: Seq<char>|
            #[trigger] has_key(codes, k) ==> k == seq!['0'] || k == seq!['1'] || k == seq!['2'],
    ensures
        first_non_trinity(keys_of(codes), from) is None,
    decreases codes.len() - from,
{
    if from < codes.len() {
        assert(keys_of(codes)[from] == codes[from].0);
        assert(has_key(codes, codes[from].0));
        lemma_first_non_trinity_all(codes, from + 1);
    }
}

proof fn lemma_first_non_trinity_none(keys: Seq<Seq<char>>, from: int, i: int)
    requires
        0 <= from <= i < keys.len(),
        first_non_trinity(keys, from) is None,
    ensures
        is_trinity_code(keys[i]),
    decreases i - from,
{
    if from < i {
        lemma_first_non_trinity_none(keys, from + 1, i);
    }
}

// ---------------------------------------------------------------------------
// Refusal codes of a manifest against the tool's source
// ---------------------------------------------------------------------------

/// The first mismatch between the refusal codes a manifest declares and the
/// codes its tool's source holds.
#[derive(Clone, Debug, PartialEq, Eq)]
pub enum RefusalCodeViolation {
    /// This declared code never appears in the source.
    DeclaredButAbsent(String),
    /// The source emits this code, which the manifest does not declare.
    EmittedButUndeclared(String),
}

impl RefusalCodeViolation {
    /// The text that states the broken rule.
    pub open spec fn text(self) -> Seq<char> {
        match self {
            RefusalCodeViolation::DeclaredButAbsent(c) => "R-007 VIOLATION: operator.json declares '"@
                + c@ + "' but it never appears in source"@,
            RefusalCodeViolation::EmittedButUndeclared(c) => "R-007 VIOLATION: Source emits '"@
                + c@ + "' but operator.json does not declare it"@,
        }
    }

    /// The message that states the broken rule.
    pub fn message(&self) -> (m: String)
        ensures
            m@ == self.text(),
    {
        match self {
            RefusalCodeViolation::DeclaredButAbsent(c) => {
                let mut m = String::from_str("R-007 VIOLATION: operator.json declares '");
                m.append(c.as_str());
                m.append("' but it never appears in source");
                m
            },
            RefusalCodeViolation::EmittedButUndeclared(c) => {
                let mut m = String::from_str("R-007 VIOLATION: Source emits '");
                m.append(c.as_str());
                m.append("' but operator.json does not declare it");
                m
            },
        }
    }
}

/// A declared refusal code that does not occur in the source text.
pub open spec fn absent_code(m: OperatorManifest, combined: Seq<char>, d: Seq<char>) -> bool {
    declares_refusal(m, d) && !contains_seq(combined, d)
}

/// A code quoted in the source text that the manifest does not declare.
pub open spec fn undeclared_code(m: OperatorManifest, combined: Seq<char>, c: Seq<char>) -> bool {
    is_quoted_code(combined, c) && !declares_refusal(m, c)
}

/// Checks the two-way match between the manifest's refusal codes and the
/// codes in the production part of the tool's source files: every declared
/// code must occur in the source text, and every `"E_..."` literal there must
/// be declared. Declared codes are checked first, each kind in ascending
/// order, so an error names the least code of the first kind that fails.
#[verifier::loop_isolation(false)]
pub fn assert_refusal_codes_match_source(
    manifest: &OperatorManifest,
    source_contents: &Vec<String>,
) -> (res: Result<(), RefusalCodeViolation>)
    ensures
        ({
            let combined = combined_source(texts_view(source_contents@));
            let m = *manifest;
            &&& res is Ok <==> (forall|d: Seq<char>| !absent_code(m, combined, d)) && (forall|
                c: Seq<char>,
            | !undeclared_code(m, combined, c))
            &&& res matches Err(RefusalCodeViolation::DeclaredButAbsent(d)) ==> absent_code(
                m,
                combined,
                d@,
            ) && forall|d2: Seq<char>| absent_code(m, combined, d2) ==> !seq_lt(d2, d@)
            &&& res matches Err(RefusalCodeViolation::EmittedButUndeclared(c)) ==> (forall|
                d: Seq<char>,
            | !absent_code(m, combined, d)) && undeclared_code(m, combined, c@) && forall|
                c2: Seq<char>,
            | undeclared_code(m, combined, c2) ==> !seq_lt(c2, c@)
        }),
{
    let ghost m = *manifest;
    let declared = collect_refusal_codes_from_manifest(manifest);
    let combined = combine_sources(source_contents);
    let ghost cs = combined@;
    declared.keys_ascend();
    let ghost dkeys = keys_of(declared@);
    let mut i: usize = 0;
    while i < declared.len()
        invariant
            i <= declared@.len(),
            dkeys == keys_of(declared@),
            strictly_ascending(dkeys),
            forall|c: Seq<char>| #[trigger] has_key(declared@, c) <==> declares_refusal(m, c),
            forall|j: int| 0 <= j < i ==> contains_seq(cs, #[trigger] dkeys[j]),
        decreases declared@.len() - i,
    {
        let code = declared.key_at(i);
        let code_chars = str_chars(code.as_str());
        assert(dkeys[i as int] == code@);
        if !contains_chars(&combined, &code_chars) {
            proof {
                assert(has_key(declared@, code@));
                assert(absent_code(m, cs, code@));
                assert forall|d2: Seq<char>| absent_code(m, cs, d2) implies !seq_lt(d2, code@) by {
                    assert(has_key(declared@, d2));
                    let j = choose|j: int| 0 <= j < declared@.len() && #[trigger] declared@[j].0 == d2;
                    assert(dkeys[j] == d2);
                    if j > i {
                        assert(seq_lt(dkeys[i as int], dkeys[j]));
                        lemma_seq_lt_asymmetric(code@, d2);
                    } else if j == i {
                        lemma_seq_lt_irreflexive(d2);
                    }
                }
            }
            return Err(RefusalCodeViolation::DeclaredButAbsent(code.clone()));
        }
        i = i + 1;
    }
    proof {
        assert forall|d: Seq<char>| !absent_code(m, cs, d) by {
            if declares_refusal(m, d) {
                assert(has_key(declared@, d));
                let j = choose|j: int| 0 <= j < declared@.len() && #[trigger] declared@[j].0 == d;
                assert(dkeys[j] == d);
            }
        }
    }
    let combined_text = string_from_chars(&combined);
    let emitted = extract_e_codes_from_source(combined_text.as_str());
    emitted.keys_ascend();
    let ghost ekeys = keys_of(emitted@);
    let mut k: usize = 0;
    while k < emitted.len()
        invariant
            k <= emitted@.len(),
            ekeys == keys_of(emitted@),
            strictly_ascending(ekeys),
            combined_text@ == cs,
            forall|c: Seq<char>| #[trigger] has_key(declared@, c) <==> declares_refusal(m, c),
            forall|c: Seq<char>| #[trigger] has_key(emitted@, c) <==> is_quoted_code(cs, c),
            forall|j: int| 0 <= j < k ==> declares_refusal(m, #[trigger] ekeys[j]),
            forall|d: Seq<char>| !absent_code(m, cs, d),
        decreases emitted@.len() - k,
    {
        let code = emitted.key_at(k);
        assert(ekeys[k as int] == code@);
        if !declared.contains(code.as_str()) {
            proof {
                assert(has_key(emitted@, code@));
                assert(is_quoted_code(cs, code@));
                assert(undeclared_code(m, cs, code@));
                assert forall|c2: Seq<char>| undeclared_code(m, cs, c2) implies !seq_lt(c2, code@) by {
                    assert(has_key(emitted@, c2));
                    let j = choose|j: int| 0 <= j < emitted@.len() && #[trigger] emitted@[j].0 == c2;
                    assert(ekeys[j] == c2);
                    if j > k {
                        assert(seq_lt(ekeys[k as int], ekeys[j]));
                        lemma_seq_lt_asymmetric(code@, c2);
                    } else if j == k {
                        lemma_seq_lt_irreflexive(c2);
                    }
                }
            }
            return Err(RefusalCodeViolation::EmittedButUndeclared(code.clone()));
        }
        k = k + 1;
    }
    proof {
        assert forall|c: Seq<char>| !undeclared_code(m, cs, c) by {
            if is_quoted_code(cs, c) {
                assert(has_key(emitted@, c));
                let j = choose|j: int| 0 <= j < emitted@.len() && #[trigger] emitted@[j].0 == c;
                assert(ekeys[j] == c);
            }
        }
    }
    Ok(())
}

// ---------------------------------------------------------------------------
// Text after a test-module marker
// ---------------------------------------------------------------------------

/// `d` holds neither a carriage return nor a line feed.
pub open spec fn no_line_break(d: Seq<char>) -> bool {
    forall|i: int| 0 <= i < d.len() ==> d[i] != '\r' && d[i] != '\n'
}

proof fn lemma_kept_lines_stop(l1: Seq<Seq<char>>, x: Seq<Seq<char>>)
    requires
        x.len() > 0,
        trim(x[0]) == cfg_test_marker(),
    ensures
        kept_lines(l1 + x) == kept_lines(l1),
    decreases l1.len(),
{
    if l1.len() == 0 {
        assert(l1 + x =~= x);
    } else {
        assert((l1 + x).drop_first() =~= l1.drop_first() + x);
        assert((l1 + x)[0] == l1[0]);
        lemma_kept_lines_stop(l1.drop_first(), x);
    }
}

/// How the production text of a source changes when a line break is added at
/// its end: not at all, by one more line break after one, or by a carriage
/// return dropped before the last line break.
pub open spec fn differs_at_line_end(p1: Seq<char>, p2: Seq<char>) -> bool {
    ||| p2 == p1
    ||| (p1.len() == 0 || p1.last() == '\n') && p2 == p1.push('\n')
    ||| exists|l: Seq<char>| #[trigger] crlf_ended(l) == p1 && p2 == l + seq!['\n']
}

/// `l` followed by a carriage return and a line feed.
pub open spec fn crlf_ended(l: Seq<char>) -> Seq<char> {
    l + seq!['\r', '\n']
}

proof fn lemma_kept_lines_head(h: Seq<char>, ls: Seq<Seq<char>>)
    requires
        trim(h) != cfg_test_marker(),
    ensures
        kept_lines(seq![h] + ls) == h + seq!['\n'] + kept_lines(ls),
{
    assert((seq![h] + ls)[0] == h);
    assert((seq![h] + ls).drop_first() =~= ls);
}

proof fn lemma_production_line_end(c: Seq<char>)
    ensures
        differs_at_line_end(kept_lines(lines(c)), kept_lines(lines(c + seq!['\n']))),
    decreases c.len(),
{
    let c2 = c + seq!['\n'];
    lemma_first_newline_props(c);
    let k = first_newline(c) as int;
    if c.len() == 0 {
        assert(c2 =~= seq!['\n']);
        lemma_lines_single(c);
        assert(c + seq!['\n'] =~= c2);
        assert(strip_cr(c) =~= c);
        assert(trim(c) =~= c) by {
            assert(c =~= Seq::<char>::empty());
        }
        assert(cfg_test_marker().len() == 12);
        lemma_kept_lines_head(c, Seq::<Seq<char>>::empty());
        assert(seq![c] + Seq::<Seq<char>>::empty() =~= seq![c]);
        assert(kept_lines(lines(c2)) =~= kept_lines(lines(c)).push('\n'));
    } else if k >= c.len() {
        lemma_lines_single(c);
        let w = strip_cr(c);
        if c.last() == '\r' {
            assert(c =~= w.push('\r'));
            lemma_trim_push_stripped(w, white_space(), '\r');
        }
        assert(trim(w) == trim(c));
        if trim(c) != cfg_test_marker() {
            lemma_kept_lines_head(c, Seq::<Seq<char>>::empty());
            lemma_kept_lines_head(w, Seq::<Seq<char>>::empty());
            assert(seq![c] + Seq::<Seq<char>>::empty() =~= seq![c]);
            assert(seq![w] + Seq::<Seq<char>>::empty() =~= seq![w]);
            if c.last() == '\r' {
                assert(crlf_ended(w) =~= c + seq!['\n']);
                assert(kept_lines(lines(c)) == crlf_ended(w));
            } else {
                assert(w == c);
            }
        }
    } else {
        let h = strip_cr(c.take(k));
        let rest = c.skip(k + 1);
        assert forall|i: int| 0 <= i < k implies #[trigger] c2[i] != '\n' by {
            assert(c2[i] == c[i]);
        }
        crate::text::lemma_first_newline_c2(c2, k);
        assert(c2.take(k) =~= c.take(k));
        assert(c2.skip(k + 1) =~= rest + seq!['\n']);
        assert(lines(c) == seq![h] + lines(rest));
        assert(lines(c2) == seq![h] + lines(rest + seq!['\n']));
        if trim(h) != cfg_test_marker() {
            lemma_production_line_end(rest);
            lemma_kept_lines_head(h, lines(rest));
            lemma_kept_lines_head(h, lines(rest + seq!['\n']));
            let hh = h + seq!['\n'];
            let p1 = kept_lines(lines(rest));
            let p2 = kept_lines(lines(rest + seq!['\n']));
            assert(kept_lines(lines(c)) == hh + p1);
            assert(kept_lines(lines(c2)) == hh + p2);
            if p2 == p1 {
            } else if (p1.len() == 0 || p1.last() == '\n') && p2 == p1.push('\n') {
                assert(hh + p2 =~= (hh + p1).push('\n'));
            } else {
                let l = choose|l: Seq<char>| #[trigger] crlf_ended(l) == p1 && p2 == l + seq!['\n'];
                assert(crlf_ended(hh + l) =~= hh + p1);
                assert(hh + p2 =~= (hh + l) + seq!['\n']);
            }
        } else {
            assert((seq![h] + lines(rest))[0] == h);
            assert((seq![h] + lines(rest + seq!['\n']))[0] == h);
        }
    }
}

proof fn lemma_contains_line_end_edit(l: Seq<char>, ch: char, r: Seq<char>, d: Seq<char>)
    requires
        ch == '\r' || ch == '\n',
        r.len() > 0,
        r[0] == '\n',
        no_line_break(d),
    ensures
        contains_seq(l + r, d) <==> contains_seq(l + seq![ch] + r, d),
{
    let y = l + r;
    let z = l + seq![ch] + r;
    let m = l.len() as int;
    let n = d.len() as int;
    assert(y[m] == '\n');
    assert(z[m] == ch);
    if contains_seq(y, d) {
        let i = choose|i: int| occurs_at(y, d, i);
        if i + n <= m {
            assert(z.subrange(i, i + n) =~= y.subrange(i, i + n));
            assert(occurs_at(z, d, i));
        } else if i >= m {
            assert(z.subrange(i + 1, i + 1 + n) =~= y.subrange(i, i + n));
            assert(occurs_at(z, d, i + 1));
        } else {
            assert(y.subrange(i, i + n)[m - i] == y[m]);
            assert(d[m - i] == '\n');
        }
    }
    if contains_seq(z, d) {
        let i = choose|i: int| occurs_at(z, d, i);
        if i + n <= m {
            assert(z.subrange(i, i + n) =~= y.subrange(i, i + n));
            assert(occurs_at(y, d, i));
        } else if i > m {
            assert(z.subrange(i, i + n) =~= y.subrange(i - 1, i - 1 + n));
            assert(occurs_at(y, d, i - 1));
        } else {
            assert(z.subrange(i, i + n)[m - i] == z[m]);
            assert(d[m - i] == ch);
        }
    }
}

proof fn lemma_codes_line_end_edit(l: Seq<char>, ch: char, r: Seq<char>, code: Seq<char>)
    requires
        ch == '\r' || ch == '\n',
        r.len() > 0,
        r[0] == '\n',
    ensures
        is_quoted_code(l + r, code) <==> is_quoted_code(l + seq![ch] + r, code),
{
    let y = l + r;
    let z = l + seq![ch] + r;
    let m = l.len() as int;
    assert(y[m] == '\n');
    assert(z[m] == ch);
    assert(z[m + 1] == '\n');
    if is_quoted_code(y, code) {
        let (p, q) = choose|p: int, q: int| quoted_code_at(y, p, q) && code == y.subrange(p + 1, q);
        if q < m {
            assert forall|i: int| p < i < q implies is_code_char(#[trigger] z[i]) by {
                assert(z[i] == y[i]);
            }
            assert(z[p] == y[p] && z[p + 1] == y[p + 1] && z[p + 2] == y[p + 2] && z[q] == y[q]);
            assert(quoted_code_at(z, p, q));
            assert(z.subrange(p + 1, q) =~= y.subrange(p + 1, q));
        } else if p > m {
            assert forall|i: int| p + 1 < i < q + 1 implies is_code_char(#[trigger] z[i]) by {
                assert(z[i] == y[i - 1]);
            }
            assert(z[p + 1] == y[p] && z[p + 2] == y[p + 1] && z[p + 3] == y[p + 2] && z[q + 1]
                == y[q]);
            assert(quoted_code_at(z, p + 1, q + 1));
            assert(z.subrange(p + 2, q + 1) =~= y.subrange(p + 1, q));
        } else if p < m && m < q {
            assert(is_code_char(y[m]));
        }
    }
    if is_quoted_code(z, code) {
        let (p, q) = choose|p: int, q: int| quoted_code_at(z, p, q) && code == z.subrange(p + 1, q);
        if q < m {
            assert forall|i: int| p < i < q implies is_code_char(#[trigger] y[i]) by {
                assert(z[i] == y[i]);
            }
            assert(z[p] == y[p] && z[p + 1] == y[p + 1] && z[p + 2] == y[p + 2] && z[q] == y[q]);
            assert(quoted_code_at(y, p, q));
            assert(z.subrange(p + 1, q) =~= y.subrange(p + 1, q));
        } else if p > m + 1 {
            assert forall|i: int| p - 1 < i < q - 1 implies is_code_char(#[trigger] y[i]) by {
                assert(z[i + 1] == y[i]);
            }
            assert(z[p] == y[p - 1] && z[p + 1] == y[p] && z[p + 2] == y[p + 1] && z[q] == y[q
                - 1]);
            assert(quoted_code_at(y, p - 1, q - 1));
            assert(z.subrange(p + 1, q) =~= y.subrange(p, q - 1));
        } else if p < m && m < q {
            assert(is_code_char(z[m]));
        } else if p == m + 1 {
        } else if p == m {
        } else {
            assert(p < m && q == m);
        }
    }
}

proof fn lemma_combined_append(x: Seq<Seq<char>>, y: Seq<Seq<char>>)
    ensures
        combined_source(x + y) == combined_source(x) + combined_source(y),
    decreases y.len(),
{
    if y.len() == 0 {
        assert(x + y =~= x);
        assert(combined_source(x) + combined_source(y) =~= combined_source(x));
    } else {
        assert((x + y).drop_last() =~= x + y.drop_last());
        assert((x + y).last() == y.last());
        lemma_combined_append(x, y.drop_last());
        assert(combined_source(x + y) =~= combined_source(x) + combined_source(y));
    }
}

proof fn lemma_combined_at(texts: Seq<Seq<char>>, k: int, t: Seq<char>)
    requires
        0 <= k < texts.len(),
    ensures
        combined_source(texts.update(k, t)) == combined_source(texts.take(k)) + (
        production_source(t) + seq!['\n']) + combined_source(texts.skip(k + 1)),
{
    let before = texts.take(k);
    let after = texts.skip(k + 1);
    assert(texts.update(k, t) =~= before + seq![t] + after);
    lemma_combined_append(before + seq![t], after);
    lemma_combined_append(before, seq![t]);
    let one = seq![t];
    assert(one.drop_last() =~= Seq::<Seq<char>>::empty());
    assert(one.last() == t);
    assert(combined_source(one.drop_last()) =~= Seq::<char>::empty());
    assert(combined_source(one) =~= production_source(t) + seq!['\n']);
    assert(combined_source(texts.update(k, t)) =~= combined_source(before) + (production_source(t)
        + seq!['\n']) + combined_source(after));
}

/// Text after a line `#[cfg(test)]` added to one source file leaves the
/// refusal-code judgement unchanged, provided no declared code holds a line
/// break: the same declared codes are absent from the source, and the same
/// codes are emitted without being declared.
#[verifier::spinoff_prover]
pub proof fn lemma_test_module_tail_ignored(
    m: OperatorManifest,
    texts: Seq<Seq<char>>,
    k: int,
    tail: Seq<char>,
)
    requires
        0 <= k < texts.len(),
        forall|d: Seq<char>| #[trigger] declares_refusal(m, d) ==> no_line_break(d),
    ensures
        ({
            let texts2 = texts.update(
                k,
                texts[k] + seq!['\n', '#', '[', 'c', 'f', 'g', '(', 't', 'e', 's', 't', ')', ']', '\n']
                    + tail,
            );
            &&& forall|d: Seq<char>|
                #[trigger] absent_code(m, combined_source(texts), d) <==> absent_code(
                    m,
                    combined_source(texts2),
                    d,
                )
            &&& forall|c: Seq<char>|
                #[trigger] undeclared_code(m, combined_source(texts), c) <==> undeclared_code(
                    m,
                    combined_source(texts2),
                    c,
                )
        }),
{
    let c = texts[k];
    let marker = cfg_test_marker();
    let c2 = c + seq!['\n'] + marker + seq!['\n'] + tail;
    assert(c2 =~= texts[k] + seq!['\n', '#', '[', 'c', 'f', 'g', '(', 't', 'e', 's', 't', ')', ']', '\n']
        + tail);
    let texts2 = texts.update(k, c2);
    // The production text of the extended file is that of `c` and a line break.
    let u = c + seq!['\n'];
    let y = marker + seq!['\n'] + tail;
    assert(c2 =~= u + y);
    lemma_lines_append(u, y);
    assert forall|i: int| 0 <= i < marker.len() implies #[trigger] marker[i] != '\n' by {}
    lemma_lines_single(marker);
    lemma_lines_append(marker + seq!['\n'], tail);
    assert(strip_cr(marker) == marker);
    lemma_trim_bounds(marker, white_space(), 0, 12);
    assert(marker.subrange(0, 12) =~= marker);
    assert(lines(y)[0] == marker);
    lemma_kept_lines_stop(lines(u), lines(y));
    let p1 = production_source(c);
    let p2 = production_source(c2);
    assert(p2 == kept_lines(lines(u)));
    lemma_production_line_end(c);
    // The combined texts differ only in that file's part.
    lemma_combined_at(texts, k, c);
    lemma_combined_at(texts, k, c2);
    assert(texts.update(k, c) =~= texts);
    let a = combined_source(texts.take(k));
    let b = combined_source(texts.skip(k + 1));
    assert(combined_source(texts) == a + (p1 + seq!['\n']) + b);
    assert(combined_source(texts2) == a + (p2 + seq!['\n']) + b);
    lemma_codes_same_across_line_end(m, a, p1, p2, b);
}

#[verifier::spinoff_prover]
proof fn lemma_codes_same_across_line_end(
    m: OperatorManifest,
    a: Seq<char>,
    p1: Seq<char>,
    p2: Seq<char>,
    b: Seq<char>,
)
    requires
        differs_at_line_end(p1, p2),
        forall|d: Seq<char>| #[trigger] declares_refusal(m, d) ==> no_line_break(d),
    ensures
        forall|d: Seq<char>|
            #[trigger] absent_code(m, a + (p1 + seq!['\n']) + b, d) <==> absent_code(
                m,
                a + (p2 + seq!['\n']) + b,
                d,
            ),
        forall|c: Seq<char>|
            #[trigger] undeclared_code(m, a + (p1 + seq!['\n']) + b, c) <==> undeclared_code(
                m,
                a + (p2 + seq!['\n']) + b,
                c,
            ),
{
    let c1s = a + (p1 + seq!['\n']) + b;
    let c2s = a + (p2 + seq!['\n']) + b;
    if p2 == p1 {
    } else if (p1.len() == 0 || p1.last() == '\n') && p2 == p1.push('\n') {
        let l = a + p1;
        let r = seq!['\n'] + b;
        assert(c1s =~= l + r);
        assert(c2s =~= l + seq!['\n'] + r);
        assert forall|d: Seq<char>| #[trigger] absent_code(m, c1s, d) <==> absent_code(m, c2s, d) by {
            if declares_refusal(m, d) {
                lemma_contains_line_end_edit(l, '\n', r, d);
            }
        }
        assert forall|cd: Seq<char>| #[trigger] undeclared_code(m, c1s, cd) <==> undeclared_code(
            m,
            c2s,
            cd,
        ) by {
            lemma_codes_line_end_edit(l, '\n', r, cd);
        }
    } else {
        let lw = choose|lw: Seq<char>| #[trigger] crlf_ended(lw) == p1 && p2 == lw + seq!['\n'];
        let l = a + lw;
        let r = seq!['\n', '\n'] + b;
        assert(c1s =~= l + seq!['\r'] + r);
        assert(c2s =~= l + r);
        assert forall|d: Seq<char>| #[trigger] absent_code(m, c1s, d) <==> absent_code(m, c2s, d) by {
            if declares_refusal(m, d) {
                lemma_contains_line_end_edit(l, '\r', r, d);
            }
        }
        assert forall|cd: Seq<char>| #[trigger] undeclared_code(m, c1s, cd) <==> undeclared_code(
            m,
            c2s,
            cd,
        ) by {
            lemma_codes_line_end_edit(l, '\r', r, cd);
        }
    }
}

// ---------------------------------------------------------------------------
// Judging a tool's captured runs
// ---------------------------------------------------------------------------

/// The first rule that a tool's captured run breaks.
#[derive(Clone, Debug, PartialEq, Eq)]
pub enum RunViolation {
    /// The run exited with `actual` where `expected` was due.
    ExitCode { expected: i32, actual: Option<i32> },
    /// The output is not valid JSON.
    InvalidJson(JsonParseError),
    /// The output has no line to parse.
    EmptyOutput,
    /// The `--describe` document has no `name` member.
    MissingName,
    /// The `--schema` document has neither `$schema` nor `type`.
    NotJsonSchema,
    /// The `--schema` document has neither `properties` nor `definitions`.
    MissingStructure,
    /// The output has no `version` member.
    MissingVersion,
}

fn exit_code_is(run: &ToolRun, expected: i32) -> (b: bool)
    ensures
        b <==> run.code == Some(expected),
{
    match run.code {
        Some(c) => c == expected,
        None => false,
    }
}

/// Judges a `--describe` run: it must exit 0 and print a JSON document with a
/// `name` member.
pub fn assert_describe_valid(run: &ToolRun) -> (res: Result<(), RunViolation>)
    ensures
        run.code != Some(0i32) ==> res == Err::<(), RunViolation>(
            RunViolation::ExitCode { expected: 0, actual: run.code },
        ),
        run.code == Some(0i32) && !json_accepts_bytes(run.stdout@) ==> (res matches Err(
            RunViolation::InvalidJson(_),
        )),
        run.code == Some(0i32) && json_accepts_bytes(run.stdout@) ==> if has_member(
            json_value_of_bytes(run.stdout@),
            "name"@,
        ) {
            res is Ok
        } else {
            res == Err::<(), RunViolation>(RunViolation::MissingName)
        },
{
    if !exit_code_is(run, 0) {
        return Err(RunViolation::ExitCode { expected: 0, actual: run.code });
    }
    let json = match json_from_slice(run.stdout.as_slice()) {
        Ok(v) => v,
        Err(e) => return Err(RunViolation::InvalidJson(parse_error_of(&e))),
    };
    if json_get(&json, "name").is_none() {
        return Err(RunViolation::MissingName);
    }
    Ok(())
}

/// Judges a `--schema` run: it must exit 0 and print a JSON Schema document,
/// with `$schema` or `type`, and with `properties` or `definitions`.
pub fn assert_schema_valid(run: &ToolRun) -> (res: Result<(), RunViolation>)
    ensures
        run.code != Some(0i32) ==> res == Err::<(), RunViolation>(
            RunViolation::ExitCode { expected: 0, actual: run.code },
        ),
        run.code == Some(0i32) && !json_accepts_bytes(run.stdout@) ==> (res matches Err(
            RunViolation::InvalidJson(_),
        )),
        run.code == Some(0i32) && json_accepts_bytes(run.stdout@) ==> ({
            let doc = json_value_of_bytes(run.stdout@);
            let typed = has_member(doc, "$schema"@) || has_member(doc, "type"@);
            let structured = has_member(doc, "properties"@) || has_member(doc, "definitions"@);
            if !typed {
                res == Err::<(), RunViolation>(RunViolation::NotJsonSchema)
            } else if !structured {
                res == Err::<(), RunViolation>(RunViolation::MissingStructure)
            } else {
                res is Ok
            }
        }),
{
    if !exit_code_is(run, 0) {
        return Err(RunViolation::ExitCode { expected: 0, actual: run.code });
    }
    let json = match json_from_slice(run.stdout.as_slice()) {
        Ok(v) => v,
        Err(e) => return Err(RunViolation::InvalidJson(parse_error_of(&e))),
    };
    if json_get(&json, "$schema").is_none() && json_get(&json, "type").is_none() {
        return Err(RunViolation::NotJsonSchema);
    }
    if json_get(&json, "properties").is_none() && json_get(&json, "definitions").is_none() {
        return Err(RunViolation::MissingStructure);
    }
    Ok(())
}

/// Judges a `--version` run: it must exit 0.
pub fn assert_version_exits_zero(run: &ToolRun) -> (res: Result<(), RunViolation>)
    ensures
        run.code == Some(0i32) ==> res is Ok,
        run.code != Some(0i32) ==> res == Err::<(), RunViolation>(
            RunViolation::ExitCode { expected: 0, actual: run.code },
        ),
{
    if exit_code_is(run, 0) {
        Ok(())
    } else {
        Err(RunViolation::ExitCode { expected: 0, actual: run.code })
    }
}

/// The document a run prints: its whole stdout parsed as one JSON value, or
/// else the first line of its lossy text parsed as JSON; `None` when neither
/// parses.
pub open spec fn output_document(stdout: Seq<u8>) -> Option<serde_json::Value> {
    if json_accepts_bytes(stdout) {
        Some(json_value_of_bytes(stdout))
    } else {
        let ls = lines(utf8_lossy(stdout));
        if ls.len() > 0 && json_accepts_text(ls[0]) {
            Some(json_value_of_text(ls[0]))
        } else {
            None
        }
    }
}

/// Judges a successful run's output: a single JSON object, or else JSONL
/// whose first line is read, must hold a `version` member. The exit code is
/// not looked at.
pub fn assert_output_has_version(run: &ToolRun) -> (res: Result<(), RunViolation>)
    ensures
        ({
            let ls = lines(utf8_lossy(run.stdout@));
            &&& !json_accepts_bytes(run.stdout@) && ls.len() == 0 ==> res == Err::<
                (),
                RunViolation,
            >(RunViolation::EmptyOutput)
            &&& !json_accepts_bytes(run.stdout@) && ls.len() > 0 && !json_accepts_text(ls[0])
                ==> (res matches Err(RunViolation::InvalidJson(_)))
            &&& output_document(run.stdout@) matches Some(doc) ==> if has_member(
                doc,
                "version"@,
            ) {
                res is Ok
            } else {
                res == Err::<(), RunViolation>(RunViolation::MissingVersion)
            }
        }),
{
    let json = match json_from_slice(run.stdout.as_slice()) {
        Ok(v) => v,
        Err(_) => {
            let text = lossy_utf8(run.stdout.as_slice());
            let chars = str_chars(text.as_str());
            let ls = split_lines(&chars);
            if ls.len() == 0 {
                return Err(RunViolation::EmptyOutput);
            }
            let first = string_from_chars(&ls[0]);
            proof {
                assert(ls.deep_view()[0] == ls@[0]@);
            }
            match json_from_str(first.as_str()) {
                Ok(v) => v,
                Err(e) => return Err(RunViolation::InvalidJson(parse_error_of(&e))),
            }
        },
    };
    if json_get(&json, "version").is_none() {
        return Err(RunViolation::MissingVersion);
    }
    Ok(())
}

/// Judges a refusal run: it must exit 2 and print a JSON document with a
/// `version` member.
pub fn assert_refusal_has_version(run: &ToolRun) -> (res: Result<(), RunViolation>)
    ensures
        run.code != Some(2i32) ==> res == Err::<(), RunViolation>(
            RunViolation::ExitCode { expected: 2, actual: run.code },
        ),
        run.code == Some(2i32) && !json_accepts_bytes(run.stdout@) ==> (res matches Err(
            RunViolation::InvalidJson(_),
        )),
        run.code == Some(2i32) && json_accepts_bytes(run.stdout@) ==> if has_member(
            json_value_of_bytes(run.stdout@),
            "version"@,
        ) {
            res is Ok
        } else {
            res == Err::<(), RunViolation>(RunViolation::MissingVersion)
        },
{
    if !exit_code_is(run, 2) {
        return Err(RunViolation::ExitCode { expected: 2, actual: run.code });
    }
    let json = match json_from_slice(run.stdout.as_slice()) {
        Ok(v) => v,
        Err(e) => return Err(RunViolation::InvalidJson(parse_error_of(&e))),
    };
    if json_get(&json, "version").is_none() {
        return Err(RunViolation::MissingVersion);
    }
    Ok(())
}

// ---------------------------------------------------------------------------
// Witness behaviour
// ---------------------------------------------------------------------------

/// The flag that turns witness recording off, `--no-witness`.
pub open spec fn no_witness_flag() -> Seq<char> {
    seq!['-', '-', 'n', 'o', '-', 'w', 'i', 't', 'n', 'e', 's', 's']
}

/// `args` with `--no-witness` appended unless it is there already.
pub open spec fn add_no_witness(args: Seq<Seq<char>>) -> Seq<Seq<char>> {
    if args.contains(no_witness_flag()) {
        args
    } else {
        args.push(no_witness_flag())
    }
}

/// The arguments of a run with witness recording off: `args`, with
/// `--no-witness` appended unless it is there already.
pub fn with_no_witness_flag(args: &Vec<String>) -> (full: Vec<String>)
    ensures
        texts_view(full@) == add_no_witness(texts_view(args@)),
{
    let flag = string_from_chars(&vec!['-', '-', 'n', 'o', '-', 'w', 'i', 't', 'n', 'e', 's', 's']);
    let mut full: Vec<String> = Vec::new();
    let mut present = false;
    let mut i: usize = 0;
    while i < args.len()
        invariant
            i <= args.len(),
            flag@ == no_witness_flag(),
            texts_view(full@) == texts_view(args@).take(i as int),
            present == texts_view(args@).take(i as int).contains(no_witness_flag()),
        decreases args.len() - i,
    {
        if args[i] == flag {
            present = true;
        }
        full.push(args[i].clone());
        proof {
            let t = texts_view(args@).take(i + 1);
            assert(t =~= texts_view(args@).take(i as int).push(args@[i as int]@));
            assert(texts_view(full@) =~= t);
            if t.contains(no_witness_flag()) && !texts_view(args@).take(i as int).contains(
                no_witness_flag(),
            ) {
                let k = choose|k: int| 0 <= k < t.len() && t[k] == no_witness_flag();
                assert(k == i);
            }
            if args@[i as int]@ == no_witness_flag() {
                assert(t[i as int] == no_witness_flag());
            }
            if texts_view(args@).take(i as int).contains(no_witness_flag()) {
                let k = choose|k: int| 0 <= k < i && texts_view(args@).take(i as int)[k] == no_witness_flag();
                assert(t[k] == no_witness_flag());
            }
        }
        i = i + 1;
    }
    assert(texts_view(args@).take(args.len() as int) =~= texts_view(args@));
    if !present {
        let ghost before = full@;
        full.push(flag);
        assert(texts_view(full@) =~= texts_view(before).push(no_witness_flag()));
    }
    full
}

/// `args` without any `--no-witness`, the others kept in order.
pub open spec fn drop_no_witness(args: Seq<Seq<char>>) -> Seq<Seq<char>>
    decreases args.len(),
{
    if args.len() == 0 {
        seq![]
    } else if args.last() == no_witness_flag() {
        drop_no_witness(args.drop_last())
    } else {
        drop_no_witness(args.drop_last()).push(args.last())
    }
}

/// The arguments of a run with witness recording on: `args` without any
/// `--no-witness`.
pub fn without_no_witness_flag(args: &Vec<String>) -> (bare: Vec<String>)
    ensures
        texts_view(bare@) == drop_no_witness(texts_view(args@)),
{
    let flag = string_from_chars(&vec!['-', '-', 'n', 'o', '-', 'w', 'i', 't', 'n', 'e', 's', 's']);
    let mut bare: Vec<String> = Vec::new();
    let mut i: usize = 0;
    while i < args.len()
        invariant
            i <= args.len(),
            flag@ == no_witness_flag(),
            texts_view(bare@) == drop_no_witness(texts_view(args@).take(i as int)),
        decreases args.len() - i,
    {
        let ghost before = bare@;
        proof {
            let t = texts_view(args@).take(i + 1);
            assert(t.drop_last() =~= texts_view(args@).take(i as int));
            assert(t.last() == args@[i as int]@);
        }
        if !(args[i] == flag) {
            bare.push(args[i].clone());
            assert(texts_view(bare@) =~= texts_view(before).push(args@[i as int]@));
        }
        i = i + 1;
    }
    assert(texts_view(args@).take(args.len() as int) =~= texts_view(args@));
    bare
}

/// Asking twice for `--no-witness` adds it once.
pub proof fn lemma_add_no_witness_idempotent(args: Seq<Seq<char>>)
    ensures
        add_no_witness(add_no_witness(args)) == add_no_witness(args),
{
    if !args.contains(no_witness_flag()) {
        let a = args.push(no_witness_flag());
        assert(a[args.len() as int] == no_witness_flag());
    }
}

/// Dropping `--no-witness` undoes adding it: the bare run of a run with
/// witness recording off has the same arguments as that of the given run.
pub proof fn lemma_drop_undoes_add_no_witness(args: Seq<Seq<char>>)
    ensures
        drop_no_witness(add_no_witness(args)) == drop_no_witness(args),
{
    if !args.contains(no_witness_flag()) {
        let a = args.push(no_witness_flag());
        assert(a.drop_last() =~= args);
    }
}

/// No `--no-witness` is left after dropping it.
pub proof fn lemma_drop_no_witness_complete(args: Seq<Seq<char>>)
    ensures
        !drop_no_witness(args).contains(no_witness_flag()),
    decreases args.len(),
{
    if args.len() > 0 {
        lemma_drop_no_witness_complete(args.drop_last());
        let d = drop_no_witness(args.drop_last());
        if args.last() != no_witness_flag() {
            let e = d.push(args.last());
            assert forall|i: int| 0 <= i < e.len() implies e[i] != no_witness_flag() by {
                if i < d.len() {
                    assert(e[i] == d[i]);
                }
            }
        }
    }
}

/// The first witness rule that a pair of runs breaks.
#[derive(Clone, Copy, Debug, PartialEq, Eq)]
pub enum WitnessViolation {
    /// The exit code differs from the baseline run's.
    ExitCodeChanged { baseline: Option<i32>, observed: Option<i32> },
    /// `--no-witness` was given, yet a witness ledger was written.
    LedgerCreated,
}

/// Judges a run with `--no-witness` against a baseline run without a witness
/// ledger: the exit code must be unchanged and no ledger written.
pub fn assert_no_witness_suppresses_ledger(baseline: Option<i32>, observed: Option<i32>, ledger_created: bool) -> (res: Result<
    (),
    WitnessViolation,
>)
    ensures
        baseline != observed ==> res == Err::<(), WitnessViolation>(
            WitnessViolation::ExitCodeChanged { baseline, observed },
        ),
        baseline == observed && ledger_created ==> res == Err::<(), WitnessViolation>(
            WitnessViolation::LedgerCreated,
        ),
        baseline == observed && !ledger_created ==> res is Ok,
{
    if !codes_equal(baseline, observed) {
        return Err(WitnessViolation::ExitCodeChanged { baseline, observed });
    }
    if ledger_created {
        return Err(WitnessViolation::LedgerCreated);
    }
    Ok(())
}

/// Judges a run whose witness ledger cannot be written against a baseline
/// run: the failed write must not change the exit code.
pub fn assert_witness_failure_nonfatal(baseline: Option<i32>, observed: Option<i32>) -> (res: Result<
    (),
    WitnessViolation,
>)
    ensures
        baseline != observed ==> res == Err::<(), WitnessViolation>(
            WitnessViolation::ExitCodeChanged { baseline, observed },
        ),
        baseline == observed ==> res is Ok,
{
    if !codes_equal(baseline, observed) {
        return Err(WitnessViolation::ExitCodeChanged { baseline, observed });
    }
    Ok(())
}

fn codes_equal(a: Option<i32>, b: Option<i32>) -> (e: bool)
    ensures
        e == (a == b),
{
    match (a, b) {
        (Some(x), Some(y)) => x == y,
        (None, None) => true,
        _ => false,
    }
}

// ---------------------------------------------------------------------------
// CSV row count
// ---------------------------------------------------------------------------

/// The first CSV rule that a run breaks.
#[derive(Clone, Copy, Debug, PartialEq, Eq)]
pub enum RowCountViolation {
    /// The CSV output is not valid UTF-8.
    NonUtf8Output,
    /// The output has another number of lines than the input.
    RowCountChanged { input_lines: usize, output_lines: usize },
}

/// Judges a CSV run: its output must be UTF-8 text with as many lines as the
/// input.
pub fn assert_csv_row_count_preserved(input: &str, stdout: &[u8]) -> (res: Result<(), RowCountViolation>)
    ensures
        !valid_utf8(stdout@) ==> res == Err::<(), RowCountViolation>(
            RowCountViolation::NonUtf8Output,
        ),
        valid_utf8(stdout@) ==> (res is Ok <==> lines(input@).len() == lines(
            decode_utf8(stdout@),
        ).len()),
        valid_utf8(stdout@) && lines(input@).len() != lines(decode_utf8(stdout@)).len() ==> (
        res matches Err(RowCountViolation::RowCountChanged { .. })),
        res matches Err(RowCountViolation::RowCountChanged { input_lines, output_lines })
            ==> input_lines == lines(input@).len() && output_lines == lines(
            decode_utf8(stdout@),
        ).len(),
{
    let output = match decode_utf8_text(stdout) {
        Some(t) => t,
        None => return Err(RowCountViolation::NonUtf8Output),
    };
    let input_lines = split_lines(&str_chars(input)).len();
    let output_lines = split_lines(&str_chars(output.as_str())).len();
    if input_lines != output_lines {
        return Err(RowCountViolation::RowCountChanged { input_lines, output_lines });
    }
    Ok(())
}

} // verus!
