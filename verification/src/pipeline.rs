//! The captured result of running one tool, and the parsing of its output.

use vstd::prelude::*;
use vstd::utf8::*;
use crate::json::{JsonParseError, json_accepts_bytes, json_accepts_text, json_from_slice, json_from_str, json_value_of_bytes, json_value_of_text, parse_error_of};
use crate::text::{lines, lossy_utf8, split_lines, string_from_chars, str_chars, trim, trim_chars, utf8_lossy};

verus! {

/// Result of running a single tool.
pub struct ToolRun {
    /// Process exit code (`None` if killed by a signal).
    pub code: Option<i32>,
    /// Captured stdout bytes.
    pub stdout: Vec<u8>,
    /// Captured stderr bytes.
    pub stderr: Vec<u8>,
}

impl ToolRun {
    /// True when the process exited with code 0.
    pub fn success(&self) -> (ok: bool)
        ensures
            ok <==> self.code == Some(0i32),
    {
        match self.code {
            Some(c) => c == 0,
            None => false,
        }
    }

    /// Stdout interpreted as lossy UTF-8.
    pub fn stdout_text(&self) -> (t: String)
        ensures
            t@ == utf8_lossy(self.stdout@),
            valid_utf8(self.stdout@) ==> t@ == decode_utf8(self.stdout@),
    {
        lossy_utf8(self.stdout.as_slice())
    }

    /// Stderr interpreted as lossy UTF-8.
    pub fn stderr_text(&self) -> (t: String)
        ensures
            t@ == utf8_lossy(self.stderr@),
            valid_utf8(self.stderr@) ==> t@ == decode_utf8(self.stderr@),
    {
        lossy_utf8(self.stderr.as_slice())
    }
}

/// The lines of `ls` that are not blank after trimming, in order.
pub open spec fn nonblank_lines(ls: Seq<Seq<char>>) -> Seq<Seq<char>>
    decreases ls.len(),
{
    if ls.len() == 0 {
        seq![]
    } else if trim(ls.last()).len() > 0 {
        nonblank_lines(ls.drop_last()).push(ls.last())
    } else {
        nonblank_lines(ls.drop_last())
    }
}

/// The JSON lines of a tool's stdout: its lossy UTF-8 text split into lines,
/// blank lines left out.
pub open spec fn json_lines(stdout: Seq<u8>) -> Seq<Seq<char>> {
    nonblank_lines(lines(utf8_lossy(stdout)))
}

/// A JSONL line that does not parse.
#[derive(Clone, Debug, PartialEq, Eq)]
pub struct JsonLineError {
    /// The offending line.
    pub line: String,
    /// serde_json's description of the error.
    pub error: JsonParseError,
}

/// Parse JSONL bytes (one JSON value per line) into values. Blank lines are
/// skipped; the first line that does not parse is reported.
pub fn parse_jsonl(stdout: &[u8]) -> (r: Result<Vec<serde_json::Value>, JsonLineError>)
    ensures
        r is Ok <==> forall|i: int|
            0 <= i < json_lines(stdout@).len() ==> json_accepts_text(#[trigger] json_lines(stdout@)[i]),
        r matches Ok(values) ==> values.len() == json_lines(stdout@).len() && forall|i: int|
            0 <= i < values.len() ==> #[trigger] values@[i] == json_value_of_text(
                json_lines(stdout@)[i],
            ),
        r matches Err(e) ==> exists|i: int|
            0 <= i < json_lines(stdout@).len() && #[trigger] json_lines(stdout@)[i] == e.line@
                && !json_accepts_text(e.line@) && forall|j: int|
                0 <= j < i ==> json_accepts_text(#[trigger] json_lines(stdout@)[j]),
{
    let text = lossy_utf8(stdout);
    let chars = str_chars(text.as_str());
    let ls = split_lines(&chars);
    let ghost lv = ls.deep_view();
    let ghost wanted = json_lines(stdout@);
    assert(lv == lines(utf8_lossy(stdout@)));
    let mut values: Vec<serde_json::Value> = Vec::new();
    let mut i: usize = 0;
    while i < ls.len()
        invariant
            i <= ls.len(),
            lv == ls.deep_view(),
            wanted == nonblank_lines(lv),
            wanted == json_lines(stdout@),
            values.len() == nonblank_lines(lv.take(i as int)).len(),
            forall|j: int|
                0 <= j < nonblank_lines(lv.take(i as int)).len() ==> json_accepts_text(
                    #[trigger] nonblank_lines(lv.take(i as int))[j],
                ),
            forall|j: int|
                0 <= j < values.len() ==> #[trigger] values@[j] == json_value_of_text(
                    nonblank_lines(lv.take(i as int))[j],
                ),
        decreases ls.len() - i,
    {
        let line = &ls[i];
        assert(line@ == lv[i as int]);
        let t = trim_chars(line);
        let ghost before = nonblank_lines(lv.take(i as int));
        let ghost after = nonblank_lines(lv.take(i + 1));
        proof {
            assert(lv.take(i + 1).drop_last() =~= lv.take(i as int));
            assert(lv.take(i + 1).last() == lv[i as int]);
            lemma_nonblank_prefix(lv, i + 1);
        }
        if t.len() > 0 {
            assert(after == before.push(line@));
            let line_text = string_from_chars(line);
            match json_from_str(line_text.as_str()) {
                Ok(v) => {
                    values.push(v);
                },
                Err(e) => {
                    proof {
                        let idx = before.len() as int;
                        assert(after[idx] == line@);
                        assert(wanted[idx] == line@);
                        assert(line_text@ == line@);
                        assert(!json_accepts_text(wanted[idx]));
                        assert(json_lines(stdout@)[idx] == line_text@);
                        assert forall|j: int| 0 <= j < idx implies json_accepts_text(
                            #[trigger] wanted[j],
                        ) by {
                            assert(after[j] == before[j]);
                            assert(wanted[j] == after[j]);
                        }
                    }
                    return Err(JsonLineError { line: line_text, error: parse_error_of(&e) });
                },
            }
        } else {
            assert(after == before);
        }
        i = i + 1;
    }
    assert(lv.take(ls.len() as int) =~= lv);
    Ok(values)
}

/// `nonblank_lines` of a prefix is a prefix of `nonblank_lines`.
proof fn lemma_nonblank_prefix(ls: Seq<Seq<char>>, k: int)
    requires
        0 <= k <= ls.len(),
    ensures
        nonblank_lines(ls.take(k)).len() <= nonblank_lines(ls).len(),
        forall|j: int|
            0 <= j < nonblank_lines(ls.take(k)).len() ==> #[trigger] nonblank_lines(ls.take(k))[j]
                == nonblank_lines(ls)[j],
    decreases ls.len() - k,
{
    if k < ls.len() {
        lemma_nonblank_prefix(ls.drop_last(), k);
        assert(ls.drop_last().take(k) =~= ls.take(k));
    } else {
        assert(ls.take(k) =~= ls);
    }
}

/// Parse a single JSON value from bytes.
pub fn parse_json(stdout: &[u8]) -> (r: Result<serde_json::Value, JsonParseError>)
    ensures
        r is Ok <==> json_accepts_bytes(stdout@),
        r matches Ok(v) ==> v == json_value_of_bytes(stdout@),
{
    match json_from_slice(stdout) {
        Ok(v) => Ok(v),
        Err(e) => Err(parse_error_of(&e)),
    }
}

} // verus!
