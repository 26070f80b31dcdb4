//! Shared composite-key conformance: the reference normalisation of raw key
//! tuples, the fixture corpus, the judgement of a consumer's key constructor,
//! and the machine encoding of key components.
//!
//! A composite key is an ordered tuple of raw byte strings. Each component is
//! ASCII-trimmed of spaces and tabs on its own; a tuple with an empty trimmed
//! component is incomplete. Missing-looking strings stay literal bytes, and
//! component boundaries stay structural.

use vstd::prelude::*;
use vstd::utf8::*;
use vstd::string::StringExecFns;
use crate::json::{json_as_array, json_as_str, json_items_of, json_pointer, json_pointer_target, json_text_of};
use crate::text::{trim_by, lemma_trim_bounds, lemma_trim_idempotent, lemma_trim_ends, push_char, utf8_str};

verus! {

/// Raw ordered key components before per-component normalisation.
pub type RawKeyTuple = Vec<Vec<u8>>;

/// The byte sequences of a tuple's components.
pub open spec fn tuple_view(t: Vec<Vec<u8>>) -> Seq<Seq<u8>> {
    t@.map_values(|c: Vec<u8>| c@)
}

/// The byte sequences of a slice of components.
pub open spec fn components_view(t: &[Vec<u8>]) -> Seq<Seq<u8>> {
    t@.map_values(|c: Vec<u8>| c@)
}

// ---------------------------------------------------------------------------
// Reference normalisation
// ---------------------------------------------------------------------------

/// A byte that ASCII trimming removes: a space or a tab.
pub open spec fn is_ascii_blank(b: u8) -> bool {
    b == 0x20u8 || b == 0x09u8
}

/// `is_ascii_blank` as a predicate value.
pub open spec fn ascii_blank() -> spec_fn(u8) -> bool {
    |b: u8| is_ascii_blank(b)
}

/// `c` with leading and trailing spaces and tabs removed.
pub open spec fn ascii_trimmed(c: Seq<u8>) -> Seq<u8> {
    trim_by(c, ascii_blank())
}

/// The reference key of a raw tuple: each component ASCII-trimmed on its own,
/// or `None` when some trimmed component is empty.
pub open spec fn reference_key(components: Seq<Seq<u8>>) -> Option<Seq<Seq<u8>>> {
    if forall|i: int| 0 <= i < components.len() ==> #[trigger] ascii_trimmed(components[i]).len() > 0 {
        Some(components.map_values(|c: Seq<u8>| ascii_trimmed(c)))
    } else {
        None
    }
}

/// `input` without leading and trailing spaces and tabs.
fn ascii_trim(input: &[u8]) -> (r: &[u8])
    ensures
        r@ == ascii_trimmed(input@),
{
    let n = input.len();
    let mut lo: usize = 0;
    while lo < n && (input[lo] == 0x20u8 || input[lo] == 0x09u8)
        invariant
            lo <= n == input@.len(),
            forall|i: int| 0 <= i < lo ==> ascii_blank()(#[trigger] input@[i]),
        decreases n - lo,
    {
        lo = lo + 1;
    }
    let mut hi: usize = n;
    while hi > lo && (input[hi - 1] == 0x20u8 || input[hi - 1] == 0x09u8)
        invariant
            lo <= hi <= n == input@.len(),
            forall|i: int| hi <= i < n ==> ascii_blank()(#[trigger] input@[i]),
        decreases hi,
    {
        hi = hi - 1;
    }
    proof {
        lemma_trim_bounds(input@, ascii_blank(), lo as int, hi as int);
    }
    vstd::slice::slice_subrange(input, lo, hi)
}

/// Reference normalisation: ASCII-trim every component and reject the whole
/// tuple when any normalised component is empty.
pub fn reference_key_tuple(components: &[Vec<u8>]) -> (r: Option<RawKeyTuple>)
    ensures
        r is None <==> reference_key(components_view(components)) is None,
        r matches Some(v) ==> reference_key(components_view(components)) == Some(tuple_view(v)),
{
    let ghost cs = components_view(components);
    let mut out: Vec<Vec<u8>> = Vec::new();
    let mut i: usize = 0;
    while i < components.len()
        invariant
            i <= components.len(),
            cs == components_view(components),
            cs.len() == components.len(),
            out.len() == i,
            forall|k: int| 0 <= k < i ==> #[trigger] ascii_trimmed(cs[k]).len() > 0,
            tuple_view(out) =~= cs.take(i as int).map_values(|c: Seq<u8>| ascii_trimmed(c)),
        decreases components.len() - i,
    {
        let trimmed = ascii_trim(components[i].as_slice());
        assert(cs[i as int] == components@[i as int]@);
        if trimmed.len() == 0 {
            assert(!(ascii_trimmed(cs[i as int]).len() > 0));
            return None;
        }
        let ghost before = out@;
        let ghost before_view = tuple_view(out);
        let piece = vstd::slice::slice_to_vec(trimmed);
        out.push(piece);
        proof {
            assert(before.len() == i);
            assert(out@ == before.push(piece));
            assert(cs.take(i + 1) =~= cs.take(i as int).push(cs[i as int]));
            assert forall|k: int| 0 <= k < out.len() implies #[trigger] tuple_view(out)[k]
                == cs.take(i + 1).map_values(|c: Seq<u8>| ascii_trimmed(c))[k] by {
                if k < i {
                    assert(out@[k] == before[k]);
                    assert(before_view[k] == before[k]@);
                    assert(before_view[k] == ascii_trimmed(cs[k]));
                } else {
                    assert(out@[k] == piece);
                }
            }
            assert(tuple_view(out) =~= cs.take(i + 1).map_values(|c: Seq<u8>| ascii_trimmed(c)));
        }
        i = i + 1;
    }
    proof {
        assert(cs.take(i as int) =~= cs);
    }
    Some(out)
}

/// Normalising a reference key again changes nothing: a key's components are
/// already trimmed and non-empty.
pub proof fn lemma_reference_key_idempotent(components: Seq<Seq<u8>>)
    requires
        reference_key(components) is Some,
    ensures
        reference_key(reference_key(components).unwrap()) == reference_key(components),
{
    let k = reference_key(components).unwrap();
    assert forall|i: int| 0 <= i < k.len() implies #[trigger] ascii_trimmed(k[i]) == k[i] by {
        lemma_trim_idempotent(components[i], ascii_blank());
    }
    assert forall|i: int| 0 <= i < k.len() implies #[trigger] ascii_trimmed(k[i]).len() > 0 by {
        assert(ascii_trimmed(k[i]) == k[i]);
        assert(ascii_trimmed(components[i]).len() > 0);
    }
    assert(k.map_values(|c: Seq<u8>| ascii_trimmed(c)) =~= k);
}

/// A component with no space or tab at either end is kept byte for byte, so
/// strings such as `NA` or `NULL` stay literal key bytes.
pub proof fn lemma_untrimmed_component_kept(c: Seq<u8>)
    requires
        c.len() > 0,
        !is_ascii_blank(c[0]),
        !is_ascii_blank(c.last()),
    ensures
        ascii_trimmed(c) == c,
{
    lemma_trim_bounds(c, ascii_blank(), 0, c.len() as int);
    assert(c.subrange(0, c.len() as int) =~= c);
}

/// ASCII trimming keeps one contiguous stretch of a component and removes
/// only spaces (0x20) and tabs (0x09) around it; what it keeps neither starts
/// nor ends with a space or a tab.
pub proof fn lemma_trim_removes_only_spaces_and_tabs(c: Seq<u8>)
    ensures
        exists|lo: int, hi: int|
            0 <= lo <= hi <= c.len() && #[trigger] c.subrange(lo, hi) == ascii_trimmed(c) && (
            forall|i: int|
                (0 <= i < lo || hi <= i < c.len()) ==> #[trigger] c[i] == 0x20u8 || c[i] == 0x09u8),
        ascii_trimmed(c).len() > 0 ==> {
            let k = ascii_trimmed(c);
            &&& k[0] != 0x20u8 && k[0] != 0x09u8
            &&& k.last() != 0x20u8 && k.last() != 0x09u8
        },
{
    crate::text::lemma_trim_removes_only_stripped(c, ascii_blank());
    lemma_trim_ends(c, ascii_blank());
    let (lo, hi) = choose|lo: int, hi: int|
        0 <= lo <= hi <= c.len() && #[trigger] c.subrange(lo, hi) == ascii_trimmed(c) && (forall|
            i: int,
        | (0 <= i < lo || hi <= i < c.len()) ==> ascii_blank()(#[trigger] c[i]));
    assert forall|i: int| (0 <= i < lo || hi <= i < c.len()) implies #[trigger] c[i] == 0x20u8
        || c[i] == 0x09u8 by {
        assert(ascii_blank()(c[i]));
    }
}

/// A reference key has one component per raw component, each without a
/// space or tab at either end.
pub proof fn lemma_reference_key_shape(components: Seq<Seq<u8>>)
    requires
        reference_key(components) is Some,
    ensures
        reference_key(components).unwrap().len() == components.len(),
        forall|i: int|
            0 <= i < components.len() ==> {
                let k = #[trigger] reference_key(components).unwrap()[i];
                &&& k.len() > 0
                &&& !is_ascii_blank(k[0])
                &&& !is_ascii_blank(k.last())
            },
{
    assert forall|i: int| 0 <= i < components.len() implies {
        let k = #[trigger] reference_key(components).unwrap()[i];
        &&& k.len() > 0
        &&& !is_ascii_blank(k[0])
        &&& !is_ascii_blank(k.last())
    } by {
        lemma_trim_ends(components[i], ascii_blank());
        assert(ascii_trimmed(components[i]).len() > 0);
    }
}


// ---------------------------------------------------------------------------
// Fixture corpus
// ---------------------------------------------------------------------------

/// `["A", "East"]`
pub open spec fn canonical_spec() -> Seq<Seq<u8>> {
    seq![seq![65u8], seq![69u8, 97u8, 115u8, 116u8]]
}

/// `[" \tA ", "\tEast\t"]`
pub open spec fn ascii_padded_spec() -> Seq<Seq<u8>> {
    seq![seq![32u8, 9u8, 65u8, 32u8], seq![9u8, 69u8, 97u8, 115u8, 116u8, 9u8]]
}

/// `["A", " \t "]`
pub open spec fn incomplete_secondary_spec() -> Seq<Seq<u8>> {
    seq![seq![65u8], seq![32u8, 9u8, 32u8]]
}

/// `["NA", "NULL"]`
pub open spec fn missing_tokens_a_spec() -> Seq<Seq<u8>> {
    seq![seq![78u8, 65u8], seq![78u8, 85u8, 76u8, 76u8]]
}

/// `["N/A", "null"]`
pub open spec fn missing_tokens_b_spec() -> Seq<Seq<u8>> {
    seq![seq![78u8, 47u8, 65u8], seq![110u8, 117u8, 108u8, 108u8]]
}

/// `["A", "West"]`
pub open spec fn repeated_first_b_spec() -> Seq<Seq<u8>> {
    seq![seq![65u8], seq![87u8, 101u8, 115u8, 116u8]]
}

/// `["a\xff", "b"]`
pub open spec fn sentinel_a_spec() -> Seq<Seq<u8>> {
    seq![seq![97u8, 255u8], seq![98u8]]
}

/// `["a", "\xffb"]`
pub open spec fn sentinel_b_spec() -> Seq<Seq<u8>> {
    seq![seq![97u8], seq![255u8, 98u8]]
}

/// `["\xff", "unit"]`
pub open spec fn non_utf8_spec() -> Seq<Seq<u8>> {
    seq![seq![255u8], seq![117u8, 110u8, 105u8, 116u8]]
}

/// `["D", "1"]`
pub open spec fn duplicate_spec() -> Seq<Seq<u8>> {
    seq![seq![68u8], seq![49u8]]
}

/// `["A", "1"]`
pub open spec fn a1_spec() -> Seq<Seq<u8>> {
    seq![seq![65u8], seq![49u8]]
}

/// `["A", "2"]`
pub open spec fn a2_spec() -> Seq<Seq<u8>> {
    seq![seq![65u8], seq![50u8]]
}

/// `["B", "1"]`
pub open spec fn b1_spec() -> Seq<Seq<u8>> {
    seq![seq![66u8], seq![49u8]]
}

/// `["left", "right"]`
pub open spec fn left_right_spec() -> Seq<Seq<u8>> {
    seq![seq![108u8, 101u8, 102u8, 116u8], seq![114u8, 105u8, 103u8, 104u8, 116u8]]
}

/// `["right", "left"]`
pub open spec fn right_left_spec() -> Seq<Seq<u8>> {
    seq![seq![114u8, 105u8, 103u8, 104u8, 116u8], seq![108u8, 101u8, 102u8, 116u8]]
}

fn canonical() -> (t: RawKeyTuple)
    ensures
        tuple_view(t) == canonical_spec(),
{
    let t = vec![vec![65u8], vec![69u8, 97u8, 115u8, 116u8]];
    assert(tuple_view(t) =~~= canonical_spec());
    t
}

fn ascii_padded() -> (t: RawKeyTuple)
    ensures
        tuple_view(t) == ascii_padded_spec(),
{
    let t = vec![vec![32u8, 9u8, 65u8, 32u8], vec![9u8, 69u8, 97u8, 115u8, 116u8, 9u8]];
    assert(tuple_view(t) =~~= ascii_padded_spec());
    t
}

fn incomplete_secondary() -> (t: RawKeyTuple)
    ensures
        tuple_view(t) == incomplete_secondary_spec(),
{
    let t = vec![vec![65u8], vec![32u8, 9u8, 32u8]];
    assert(tuple_view(t) =~~= incomplete_secondary_spec());
    t
}

fn missing_tokens_a() -> (t: RawKeyTuple)
    ensures
        tuple_view(t) == missing_tokens_a_spec(),
{
    let t = vec![vec![78u8, 65u8], vec![78u8, 85u8, 76u8, 76u8]];
    assert(tuple_view(t) =~~= missing_tokens_a_spec());
    t
}

fn missing_tokens_b() -> (t: RawKeyTuple)
    ensures
        tuple_view(t) == missing_tokens_b_spec(),
{
    let t = vec![vec![78u8, 47u8, 65u8], vec![110u8, 117u8, 108u8, 108u8]];
    assert(tuple_view(t) =~~= missing_tokens_b_spec());
    t
}

fn repeated_first_b() -> (t: RawKeyTuple)
    ensures
        tuple_view(t) == repeated_first_b_spec(),
{
    let t = vec![vec![65u8], vec![87u8, 101u8, 115u8, 116u8]];
    assert(tuple_view(t) =~~= repeated_first_b_spec());
    t
}

fn sentinel_a() -> (t: RawKeyTuple)
    ensures
        tuple_view(t) == sentinel_a_spec(),
{
    let t = vec![vec![97u8, 255u8], vec![98u8]];
    assert(tuple_view(t) =~~= sentinel_a_spec());
    t
}

fn sentinel_b() -> (t: RawKeyTuple)
    ensures
        tuple_view(t) == sentinel_b_spec(),
{
    let t = vec![vec![97u8], vec![255u8, 98u8]];
    assert(tuple_view(t) =~~= sentinel_b_spec());
    t
}

fn non_utf8() -> (t: RawKeyTuple)
    ensures
        tuple_view(t) == non_utf8_spec(),
{
    let t = vec![vec![255u8], vec![117u8, 110u8, 105u8, 116u8]];
    assert(tuple_view(t) =~~= non_utf8_spec());
    t
}

fn duplicate() -> (t: RawKeyTuple)
    ensures
        tuple_view(t) == duplicate_spec(),
{
    let t = vec![vec![68u8], vec![49u8]];
    assert(tuple_view(t) =~~= duplicate_spec());
    t
}

fn a1() -> (t: RawKeyTuple)
    ensures
        tuple_view(t) == a1_spec(),
{
    let t = vec![vec![65u8], vec![49u8]];
    assert(tuple_view(t) =~~= a1_spec());
    t
}

fn a2() -> (t: RawKeyTuple)
    ensures
        tuple_view(t) == a2_spec(),
{
    let t = vec![vec![65u8], vec![50u8]];
    assert(tuple_view(t) =~~= a2_spec());
    t
}

fn b1() -> (t: RawKeyTuple)
    ensures
        tuple_view(t) == b1_spec(),
{
    let t = vec![vec![66u8], vec![49u8]];
    assert(tuple_view(t) =~~= b1_spec());
    t
}

fn left_right() -> (t: RawKeyTuple)
    ensures
        tuple_view(t) == left_right_spec(),
{
    let t = vec![vec![108u8, 101u8, 102u8, 116u8], vec![114u8, 105u8, 103u8, 104u8, 116u8]];
    assert(tuple_view(t) =~~= left_right_spec());
    t
}

fn right_left() -> (t: RawKeyTuple)
    ensures
        tuple_view(t) == right_left_spec(),
{
    let t = vec![vec![114u8, 105u8, 103u8, 104u8, 116u8], vec![108u8, 101u8, 102u8, 116u8]];
    assert(tuple_view(t) =~~= right_left_spec());
    t
}

/// Named fixtures covering the cross-tool composite-key contract.
#[derive(Clone, Debug, Eq, PartialEq)]
pub struct CompositeKeyFixtures {
    /// Canonical tuple used as the target of ASCII-trim checks.
    pub canonical: RawKeyTuple,
    /// Same tuple with leading/trailing ASCII spaces and tabs.
    pub ascii_padded: RawKeyTuple,
    /// A tuple whose secondary component is empty after ASCII trimming.
    pub incomplete_secondary: RawKeyTuple,
    /// Missing-looking strings that remain literal key bytes.
    pub missing_tokens: [RawKeyTuple; 2],
    /// Distinct tuples sharing their first component.
    pub repeated_first: [RawKeyTuple; 2],
    /// Distinct tuples that collide if flattened with a `0xff` sentinel.
    pub sentinel_collision: [RawKeyTuple; 2],
    /// A valid tuple containing non-UTF-8 bytes.
    pub non_utf8: RawKeyTuple,
    /// The same full tuple twice, which must compare equal.
    pub duplicate_full_tuple: [RawKeyTuple; 2],
    /// Rows deliberately out of order.
    pub reordered_rows: Vec<RawKeyTuple>,
    /// Expected structural lexicographic order for `reordered_rows`.
    pub lexicographic_rows: Vec<RawKeyTuple>,
}

/// Return a fresh, reusable fixture corpus for consumer tests.
pub fn composite_key_fixtures() -> (f: CompositeKeyFixtures)
    ensures
        tuple_view(f.canonical) == canonical_spec(),
        tuple_view(f.ascii_padded) == ascii_padded_spec(),
        tuple_view(f.incomplete_secondary) == incomplete_secondary_spec(),
        tuple_view(f.missing_tokens[0]) == missing_tokens_a_spec(),
        tuple_view(f.missing_tokens[1]) == missing_tokens_b_spec(),
        tuple_view(f.repeated_first[0]) == canonical_spec(),
        tuple_view(f.repeated_first[1]) == repeated_first_b_spec(),
        tuple_view(f.sentinel_collision[0]) == sentinel_a_spec(),
        tuple_view(f.sentinel_collision[1]) == sentinel_b_spec(),
        tuple_view(f.non_utf8) == non_utf8_spec(),
        tuple_view(f.duplicate_full_tuple[0]) == duplicate_spec(),
        tuple_view(f.duplicate_full_tuple[1]) == duplicate_spec(),
        f.reordered_rows.len() == 3,
        tuple_view(f.reordered_rows[0]) == b1_spec(),
        tuple_view(f.reordered_rows[1]) == a2_spec(),
        tuple_view(f.reordered_rows[2]) == a1_spec(),
        f.lexicographic_rows.len() == 3,
        tuple_view(f.lexicographic_rows[0]) == a1_spec(),
        tuple_view(f.lexicographic_rows[1]) == a2_spec(),
        tuple_view(f.lexicographic_rows[2]) == b1_spec(),
{
    CompositeKeyFixtures {
        canonical: canonical(),
        ascii_padded: ascii_padded(),
        incomplete_secondary: incomplete_secondary(),
        missing_tokens: [missing_tokens_a(), missing_tokens_b()],
        repeated_first: [canonical(), repeated_first_b()],
        sentinel_collision: [sentinel_a(), sentinel_b()],
        non_utf8: non_utf8(),
        duplicate_full_tuple: [duplicate(), duplicate()],
        reordered_rows: vec![b1(), a2(), a1()],
        lexicographic_rows: vec![a1(), a2(), b1()],
    }
}

// ---------------------------------------------------------------------------
// Judging a consumer's key constructor
// ---------------------------------------------------------------------------

/// The raw tuples that the conformance check hands to a consumer's key
/// constructor, in the order in which it asks about them: the padded and
/// canonical tuple, the incomplete tuple, the two missing-token tuples, the two
/// tuples sharing a first component, the two sentinel-collision tuples, the
/// non-UTF-8 tuple, the duplicated tuple twice, the three reordered rows, the
/// three rows in lexicographic order, and a tuple and its reversal.
pub open spec fn probe_spec() -> Seq<Seq<Seq<u8>>> {
    seq![
        ascii_padded_spec(),
        canonical_spec(),
        incomplete_secondary_spec(),
        missing_tokens_a_spec(),
        missing_tokens_b_spec(),
        canonical_spec(),
        repeated_first_b_spec(),
        sentinel_a_spec(),
        sentinel_b_spec(),
        non_utf8_spec(),
        duplicate_spec(),
        duplicate_spec(),
        b1_spec(),
        a2_spec(),
        a1_spec(),
        a1_spec(),
        a2_spec(),
        b1_spec(),
        left_right_spec(),
        right_left_spec(),
    ]
}

/// How many probe tuples the conformance check uses.
pub const PROBE_COUNT: usize = 20;

/// The probe tuples of the conformance check, in order (see `probe_spec`).
pub fn ordered_tuple_probes() -> (p: Vec<RawKeyTuple>)
    ensures
        p.len() == PROBE_COUNT,
        forall|i: int| 0 <= i < p.len() ==> tuple_view(#[trigger] p[i]) == probe_spec()[i],
{
    let mut p: Vec<RawKeyTuple> = Vec::new();
    p.push(ascii_padded());
    p.push(canonical());
    p.push(incomplete_secondary());
    p.push(missing_tokens_a());
    p.push(missing_tokens_b());
    p.push(canonical());
    p.push(repeated_first_b());
    p.push(sentinel_a());
    p.push(sentinel_b());
    p.push(non_utf8());
    p.push(duplicate());
    p.push(duplicate());
    p.push(b1());
    p.push(a2());
    p.push(a1());
    p.push(a1());
    p.push(a2());
    p.push(b1());
    p.push(left_right());
    p.push(right_left());
    proof {
        assert forall|i: int| 0 <= i < p.len() implies tuple_view(#[trigger] p[i])
            == probe_spec()[i] by {
            assert(probe_spec().len() == 20);
        }
    }
    p
}

/// The first rule of the composite-key contract that a key constructor breaks.
#[derive(Clone, Copy, Debug, PartialEq, Eq)]
pub enum TupleViolation {
    /// The padded tuple and the canonical tuple give different results.
    PaddingNotTrimmed,
    /// The tuple with an empty trimmed component gave a key.
    IncompleteAccepted,
    /// The complete probe tuple with this index gave no key.
    MissingKey(usize),
    /// The two missing-token tuples gave the same key.
    MissingTokensCollapsed,
    /// The two tuples sharing their first component gave the same key.
    IdentityOmitsComponent,
    /// The two sentinel-collision tuples gave the same key.
    BoundariesFlattened,
    /// The duplicated tuple gave two different keys.
    DuplicatesDiffer,
    /// The reordered rows do not sort into lexicographic order.
    OrderNotLexicographic,
    /// A tuple and its reversal gave the same key.
    ComponentOrderIgnored,
}

impl TupleViolation {
    /// The text that states the broken rule.
    pub open spec fn text(self) -> Seq<char> {
        match self {
            TupleViolation::PaddingNotTrimmed =>
                "composite-key contract: ASCII-trim each component independently"@,
            TupleViolation::IncompleteAccepted =>
                "composite-key contract: any empty component makes the tuple incomplete"@,
            TupleViolation::MissingKey(_) =>
                "composite-key contract: complete fixture must produce a key"@,
            TupleViolation::MissingTokensCollapsed =>
                "composite-key contract: missing-token strings remain literal key bytes"@,
            TupleViolation::IdentityOmitsComponent =>
                "composite-key contract: identity includes every component"@,
            TupleViolation::BoundariesFlattened =>
                "composite-key contract: component boundaries must remain structural"@,
            TupleViolation::DuplicatesDiffer =>
                "composite-key contract: duplicate full tuples compare equal"@,
            TupleViolation::OrderNotLexicographic =>
                "composite-key contract: tuple ordering is lexicographic by component bytes"@,
            TupleViolation::ComponentOrderIgnored =>
                "composite-key contract: component order is semantic"@,
        }
    }

    /// The message that states the broken rule.
    pub fn message(&self) -> (m: String)
        ensures
            m@ == self.text(),
    {
        let t = match self {
            TupleViolation::PaddingNotTrimmed =>
                "composite-key contract: ASCII-trim each component independently",
            TupleViolation::IncompleteAccepted =>
                "composite-key contract: any empty component makes the tuple incomplete",
            TupleViolation::MissingKey(_) =>
                "composite-key contract: complete fixture must produce a key",
            TupleViolation::MissingTokensCollapsed =>
                "composite-key contract: missing-token strings remain literal key bytes",
            TupleViolation::IdentityOmitsComponent =>
                "composite-key contract: identity includes every component",
            TupleViolation::BoundariesFlattened =>
                "composite-key contract: component boundaries must remain structural",
            TupleViolation::DuplicatesDiffer =>
                "composite-key contract: duplicate full tuples compare equal",
            TupleViolation::OrderNotLexicographic =>
                "composite-key contract: tuple ordering is lexicographic by component bytes",
            TupleViolation::ComponentOrderIgnored =>
                "composite-key contract: component order is semantic",
        };
        String::from_str(t)
    }
}

/// The index of the first probe in `lo..hi` that gave no key.
pub open spec fn first_missing(ranks: Seq<Option<u64>>, lo: int, hi: int) -> Option<int>
    decreases hi - lo,
{
    if lo >= hi {
        None
    } else if ranks[lo] is None {
        Some(lo)
    } else {
        first_missing(ranks, lo + 1, hi)
    }
}

/// Three ranks in ascending order.
pub open spec fn sort3(a: u64, b: u64, c: u64) -> (u64, u64, u64) {
    if a <= b {
        if b <= c {
            (a, b, c)
        } else if a <= c {
            (a, c, b)
        } else {
            (c, a, b)
        }
    } else {
        if a <= c {
            (b, a, c)
        } else if b <= c {
            (b, c, a)
        } else {
            (c, b, a)
        }
    }
}

/// The verdict on a key constructor, given for each probe tuple (see
/// `probe_spec`) either `None`, where the constructor gave no key, or a rank
/// that orders and equates the keys as the consumer's own ordering does.
/// The rules are taken in order, and a check that needs keys first requires
/// each of them in turn.
pub open spec fn tuple_verdict(r: Seq<Option<u64>>) -> Result<(), TupleViolation> {
    if r[0] != r[1] {
        Err(TupleViolation::PaddingNotTrimmed)
    } else if r[2] is Some {
        Err(TupleViolation::IncompleteAccepted)
    } else if first_missing(r, 3, 5) is Some {
        Err(TupleViolation::MissingKey(first_missing(r, 3, 5).unwrap() as usize))
    } else if r[3] == r[4] {
        Err(TupleViolation::MissingTokensCollapsed)
    } else if first_missing(r, 5, 7) is Some {
        Err(TupleViolation::MissingKey(first_missing(r, 5, 7).unwrap() as usize))
    } else if r[5] == r[6] {
        Err(TupleViolation::IdentityOmitsComponent)
    } else if first_missing(r, 7, 9) is Some {
        Err(TupleViolation::MissingKey(first_missing(r, 7, 9).unwrap() as usize))
    } else if r[7] == r[8] {
        Err(TupleViolation::BoundariesFlattened)
    } else if first_missing(r, 9, 12) is Some {
        Err(TupleViolation::MissingKey(first_missing(r, 9, 12).unwrap() as usize))
    } else if r[10] != r[11] {
        Err(TupleViolation::DuplicatesDiffer)
    } else if first_missing(r, 12, 18) is Some {
        Err(TupleViolation::MissingKey(first_missing(r, 12, 18).unwrap() as usize))
    } else if sort3(r[12].unwrap(), r[13].unwrap(), r[14].unwrap()) != (
        r[15].unwrap(),
        r[16].unwrap(),
        r[17].unwrap(),
    ) {
        Err(TupleViolation::OrderNotLexicographic)
    } else if first_missing(r, 18, 20) is Some {
        Err(TupleViolation::MissingKey(first_missing(r, 18, 20).unwrap() as usize))
    } else if r[18] == r[19] {
        Err(TupleViolation::ComponentOrderIgnored)
    } else {
        Ok(())
    }
}

proof fn lemma_first_missing_none(ranks: Seq<Option<u64>>, lo: int, hi: int)
    requires
        first_missing(ranks, lo, hi) is None,
    ensures
        forall|k: int| lo <= k < hi ==> #[trigger] ranks[k] is Some,
    decreases hi - lo,
{
    if lo < hi {
        lemma_first_missing_none(ranks, lo + 1, hi);
    }
}

fn rank_eq(a: Option<u64>, b: Option<u64>) -> (e: bool)
    ensures
        e == (a == b),
{
    match (a, b) {
        (Some(x), Some(y)) => x == y,
        (None, None) => true,
        _ => false,
    }
}

fn find_missing(ranks: &Vec<Option<u64>>, lo: usize, hi: usize) -> (m: Option<usize>)
    requires
        lo <= hi <= ranks.len(),
    ensures
        m matches Some(k) ==> first_missing(ranks@, lo as int, hi as int) == Some(k as int),
        m is None ==> first_missing(ranks@, lo as int, hi as int) is None,
        m is None ==> forall|k: int| lo <= k < hi ==> #[trigger] ranks@[k] is Some,
    decreases hi - lo,
{
    proof {
        if first_missing(ranks@, lo as int, hi as int) is None {
            lemma_first_missing_none(ranks@, lo as int, hi as int);
        }
    }
    if lo >= hi {
        None
    } else if ranks[lo].is_none() {
        Some(lo)
    } else {
        find_missing(ranks, lo + 1, hi)
    }
}

fn sort_three(a: u64, b: u64, c: u64) -> (s: (u64, u64, u64))
    ensures
        s == sort3(a, b, c),
{
    if a <= b {
        if b <= c {
            (a, b, c)
        } else if a <= c {
            (a, c, b)
        } else {
            (c, a, b)
        }
    } else {
        if a <= c {
            (b, a, c)
        } else if b <= c {
            (b, c, a)
        } else {
            (c, b, a)
        }
    }
}

/// Judges a consumer's key constructor by the shared ordered-tuple rules.
///
/// `key_ranks[i]` describes what the constructor made of the `i`-th probe of
/// `ordered_tuple_probes`: `None` for an incomplete tuple, otherwise a rank
/// such that two keys are equal exactly when their ranks are, and one key
/// orders before another exactly when its rank is smaller. The result is the
/// first rule broken, or `Ok` when the constructor keeps them all.
pub fn assert_ordered_tuple_semantics(key_ranks: &Vec<Option<u64>>) -> (res: Result<
    (),
    TupleViolation,
>)
    requires
        key_ranks.len() == PROBE_COUNT,
    ensures
        res == tuple_verdict(key_ranks@),
        res is Ok ==> key_ranks@[15].unwrap() <= key_ranks@[16].unwrap() <= key_ranks@[17].unwrap()
            && sorted_keys_of(
            key_ranks@[12].unwrap(),
            key_ranks@[13].unwrap(),
            key_ranks@[14].unwrap(),
            key_ranks@[15].unwrap(),
            key_ranks@[16].unwrap(),
            key_ranks@[17].unwrap(),
        ),
{
    proof {
        lemma_lexicographic_order_rule(key_ranks@);
    }
    let r = key_ranks;
    if !rank_eq(r[0], r[1]) {
        return Err(TupleViolation::PaddingNotTrimmed);
    }
    if r[2].is_some() {
        return Err(TupleViolation::IncompleteAccepted);
    }
    if let Some(k) = find_missing(r, 3, 5) {
        return Err(TupleViolation::MissingKey(k));
    }
    if rank_eq(r[3], r[4]) {
        return Err(TupleViolation::MissingTokensCollapsed);
    }
    if let Some(k) = find_missing(r, 5, 7) {
        return Err(TupleViolation::MissingKey(k));
    }
    if rank_eq(r[5], r[6]) {
        return Err(TupleViolation::IdentityOmitsComponent);
    }
    if let Some(k) = find_missing(r, 7, 9) {
        return Err(TupleViolation::MissingKey(k));
    }
    if rank_eq(r[7], r[8]) {
        return Err(TupleViolation::BoundariesFlattened);
    }
    if let Some(k) = find_missing(r, 9, 12) {
        return Err(TupleViolation::MissingKey(k));
    }
    if !rank_eq(r[10], r[11]) {
        return Err(TupleViolation::DuplicatesDiffer);
    }
    if let Some(k) = find_missing(r, 12, 18) {
        return Err(TupleViolation::MissingKey(k));
    }
    let sorted = sort_three(r[12].unwrap(), r[13].unwrap(), r[14].unwrap());
    if !(sorted.0 == r[15].unwrap() && sorted.1 == r[16].unwrap() && sorted.2 == r[17].unwrap()) {
        return Err(TupleViolation::OrderNotLexicographic);
    }
    if let Some(k) = find_missing(r, 18, 20) {
        return Err(TupleViolation::MissingKey(k));
    }
    if rank_eq(r[18], r[19]) {
        return Err(TupleViolation::ComponentOrderIgnored);
    }
    Ok(())
}

/// The verdict as far as the ranks of the first `r.len()` probes decide it,
/// taking the probes one by one in order: `None` while the next probe is
/// still needed, otherwise the first rule broken, or `Ok` once every probe
/// has been judged. A key is required as soon as its probe comes up.
pub open spec fn prefix_verdict(r: Seq<Option<u64>>) -> Option<Result<(), TupleViolation>> {
    if r.len() < 2 {
        None
    } else if r[0] != r[1] {
        Some(Err(TupleViolation::PaddingNotTrimmed))
    } else if r.len() < 3 {
        None
    } else if r[2] is Some {
        Some(Err(TupleViolation::IncompleteAccepted))
    } else if r.len() < 4 {
        None
    } else if r[3] is None {
        Some(Err(TupleViolation::MissingKey(3)))
    } else if r.len() < 5 {
        None
    } else if r[4] is None {
        Some(Err(TupleViolation::MissingKey(4)))
    } else if r[3] == r[4] {
        Some(Err(TupleViolation::MissingTokensCollapsed))
    } else if r.len() < 6 {
        None
    } else if r[5] is None {
        Some(Err(TupleViolation::MissingKey(5)))
    } else if r.len() < 7 {
        None
    } else if r[6] is None {
        Some(Err(TupleViolation::MissingKey(6)))
    } else if r[5] == r[6] {
        Some(Err(TupleViolation::IdentityOmitsComponent))
    } else if r.len() < 8 {
        None
    } else if r[7] is None {
        Some(Err(TupleViolation::MissingKey(7)))
    } else if r.len() < 9 {
        None
    } else if r[8] is None {
        Some(Err(TupleViolation::MissingKey(8)))
    } else if r[7] == r[8] {
        Some(Err(TupleViolation::BoundariesFlattened))
    } else if r.len() < 10 {
        None
    } else if r[9] is None {
        Some(Err(TupleViolation::MissingKey(9)))
    } else if r.len() < 11 {
        None
    } else if r[10] is None {
        Some(Err(TupleViolation::MissingKey(10)))
    } else if r.len() < 12 {
        None
    } else if r[11] is None {
        Some(Err(TupleViolation::MissingKey(11)))
    } else if r[10] != r[11] {
        Some(Err(TupleViolation::DuplicatesDiffer))
    } else if r.len() < 13 {
        None
    } else if r[12] is None {
        Some(Err(TupleViolation::MissingKey(12)))
    } else if r.len() < 14 {
        None
    } else if r[13] is None {
        Some(Err(TupleViolation::MissingKey(13)))
    } else if r.len() < 15 {
        None
    } else if r[14] is None {
        Some(Err(TupleViolation::MissingKey(14)))
    } else if r.len() < 16 {
        None
    } else if r[15] is None {
        Some(Err(TupleViolation::MissingKey(15)))
    } else if r.len() < 17 {
        None
    } else if r[16] is None {
        Some(Err(TupleViolation::MissingKey(16)))
    } else if r.len() < 18 {
        None
    } else if r[17] is None {
        Some(Err(TupleViolation::MissingKey(17)))
    } else if sort3(r[12].unwrap(), r[13].unwrap(), r[14].unwrap()) != (
        r[15].unwrap(),
        r[16].unwrap(),
        r[17].unwrap(),
    ) {
        Some(Err(TupleViolation::OrderNotLexicographic))
    } else if r.len() < 19 {
        None
    } else if r[18] is None {
        Some(Err(TupleViolation::MissingKey(18)))
    } else if r.len() < 20 {
        None
    } else if r[19] is None {
        Some(Err(TupleViolation::MissingKey(19)))
    } else if r[18] == r[19] {
        Some(Err(TupleViolation::ComponentOrderIgnored))
    } else {
        Some(Ok(()))
    }
}

/// Judging the probes one by one reaches the same verdict as judging all of
/// them: once the first probes decide the verdict, it is the verdict on all
/// twenty, and all twenty always decide it.
pub proof fn lemma_prefix_verdict_agrees(r: Seq<Option<u64>>, n: int)
    requires
        r.len() == PROBE_COUNT,
        0 <= n <= r.len(),
    ensures
        prefix_verdict(r) == Some(tuple_verdict(r)),
        prefix_verdict(r.take(n)) matches Some(v) ==> v == tuple_verdict(r),
{
    reveal_with_fuel(first_missing, 7);
    let p = r.take(n);
    assert forall|i: int| 0 <= i < n implies #[trigger] p[i] == r[i] by {}
}

/// How many of `a`, `b`, `c` equal `x`.
pub open spec fn count_among(a: u64, b: u64, c: u64, x: u64) -> int {
    (if a == x { 1int } else { 0int }) + (if b == x { 1int } else { 0int }) + (if c == x {
        1int
    } else {
        0int
    })
}

/// The keys of rows `d`, `e`, `f` are those of rows `a`, `b`, `c` sorted
/// ascending: in order, and the same keys as often.
pub open spec fn sorted_keys_of(a: u64, b: u64, c: u64, d: u64, e: u64, f: u64) -> bool {
    &&& d <= e <= f
    &&& forall|x: u64| #[trigger] count_among(a, b, c, x) == count_among(d, e, f, x)
}

/// The ordering rule: when the keys are otherwise in order, the verdict
/// rejects the ordering exactly when the keys of the three rows made out of
/// order (probes 12 to 14), sorted ascending, are not the keys of the three
/// rows in lexicographic order (probes 15 to 17). In particular an accepted
/// constructor ranks `(A, 1)` no higher than `(A, 2)`, and that no higher
/// than `(B, 1)`.
pub proof fn lemma_lexicographic_order_rule(r: Seq<Option<u64>>)
    requires
        r.len() == PROBE_COUNT,
    ensures
        tuple_verdict(r) is Ok ==> {
            &&& forall|k: int| 12 <= k < 18 ==> #[trigger] r[k] is Some
            &&& r[15].unwrap() <= r[16].unwrap() <= r[17].unwrap()
            &&& r[14].unwrap() <= r[13].unwrap() <= r[12].unwrap() ==> r[15] == r[14] && r[16]
                == r[13] && r[17] == r[12]
            &&& sorted_keys_of(
                r[12].unwrap(),
                r[13].unwrap(),
                r[14].unwrap(),
                r[15].unwrap(),
                r[16].unwrap(),
                r[17].unwrap(),
            )
        },
        tuple_verdict(r) == Err::<(), TupleViolation>(TupleViolation::OrderNotLexicographic)
            ==> !sorted_keys_of(
            r[12].unwrap(),
            r[13].unwrap(),
            r[14].unwrap(),
            r[15].unwrap(),
            r[16].unwrap(),
            r[17].unwrap(),
        ),
{
    reveal_with_fuel(first_missing, 7);
    let a = r[12].unwrap();
    let b = r[13].unwrap();
    let c = r[14].unwrap();
    let d = r[15].unwrap();
    let e = r[16].unwrap();
    let f = r[17].unwrap();
    if sort3(a, b, c) == (d, e, f) {
        assert forall|x: u64| #[trigger] count_among(a, b, c, x) == count_among(d, e, f, x) by {}
    } else if sorted_keys_of(a, b, c, d, e, f) {
        assert(count_among(a, b, c, a) == count_among(d, e, f, a));
        assert(count_among(a, b, c, b) == count_among(d, e, f, b));
        assert(count_among(a, b, c, c) == count_among(d, e, f, c));
        assert(count_among(a, b, c, d) == count_among(d, e, f, d));
        assert(count_among(a, b, c, e) == count_among(d, e, f, e));
        assert(count_among(a, b, c, f) == count_among(d, e, f, f));
        assert(false);
    }
}

/// A constructor is accepted exactly when it keeps every rule of the
/// contract: padded and canonical tuples give the same key; the incomplete
/// tuple gives none; every other probe gives a key; the two missing-token
/// tuples, the two tuples sharing a first component, and the two
/// sentinel-collision tuples give different keys; the duplicate tuples give
/// the same key; the rows made out of order sort into the lexicographic rows;
/// and swapping the components of a tuple changes its key.
pub proof fn lemma_accepted_constructor_rules(r: Seq<Option<u64>>)
    requires
        r.len() == PROBE_COUNT,
    ensures
        tuple_verdict(r) is Ok <==> {
            &&& r[0] == r[1]
            &&& r[2] is None
            &&& forall|k: int| 3 <= k < 20 ==> #[trigger] r[k] is Some
            &&& r[3] != r[4]
            &&& r[5] != r[6]
            &&& r[7] != r[8]
            &&& r[10] == r[11]
            &&& sorted_keys_of(
                r[12].unwrap(),
                r[13].unwrap(),
                r[14].unwrap(),
                r[15].unwrap(),
                r[16].unwrap(),
                r[17].unwrap(),
            )
            &&& r[18] != r[19]
        },
{
    reveal_with_fuel(first_missing, 7);
    lemma_lexicographic_order_rule(r);
    if tuple_verdict(r) is Ok {
        assert forall|k: int| 3 <= k < 20 implies #[trigger] r[k] is Some by {
            lemma_first_missing_none(r, 3, 5);
            lemma_first_missing_none(r, 5, 7);
            lemma_first_missing_none(r, 7, 9);
            lemma_first_missing_none(r, 9, 12);
            lemma_first_missing_none(r, 12, 18);
            lemma_first_missing_none(r, 18, 20);
        }
    }
    if forall|k: int| 3 <= k < 20 ==> #[trigger] r[k] is Some {
        assert(r[3] is Some && r[4] is Some && r[5] is Some && r[6] is Some && r[7] is Some);
        assert(r[8] is Some && r[9] is Some && r[10] is Some && r[11] is Some && r[12] is Some);
        assert(r[13] is Some && r[14] is Some && r[15] is Some && r[16] is Some && r[17] is Some);
        assert(r[18] is Some && r[19] is Some);
    }
}

/// The verdict so far on the probes whose keys have been made, in order:
/// `None` while the next probe is still needed.
#[verifier::loop_isolation(false)]
pub fn judge_probe_prefix(key_ranks: &Vec<Option<u64>>) -> (v: Option<Result<(), TupleViolation>>)
    requires
        key_ranks.len() <= PROBE_COUNT,
    ensures
        v == prefix_verdict(key_ranks@),
        v == Some(Ok::<(), TupleViolation>(())) ==> key_ranks.len() == PROBE_COUNT
            && key_ranks@[15].unwrap() <= key_ranks@[16].unwrap() <= key_ranks@[17].unwrap()
            && sorted_keys_of(
            key_ranks@[12].unwrap(),
            key_ranks@[13].unwrap(),
            key_ranks@[14].unwrap(),
            key_ranks@[15].unwrap(),
            key_ranks@[16].unwrap(),
            key_ranks@[17].unwrap(),
        ),
{
    proof {
        if prefix_verdict(key_ranks@) == Some(Ok::<(), TupleViolation>(())) {
            assert(key_ranks.len() == PROBE_COUNT);
            lemma_prefix_verdict_agrees(key_ranks@, PROBE_COUNT as int);
            lemma_lexicographic_order_rule(key_ranks@);
        }
    }
    let r = key_ranks;
    let n = r.len();
    if n < 2 {
        return None;
    }
    if !rank_eq(r[0], r[1]) {
        return Some(Err(TupleViolation::PaddingNotTrimmed));
    }
    if n < 3 {
        return None;
    }
    if r[2].is_some() {
        return Some(Err(TupleViolation::IncompleteAccepted));
    }
    let mut k: usize = 3;
    while k < 5
        invariant
            3 <= k <= 5,
            n == r.len(),
            n >= 3,
            r@[0] == r@[1],
            r@[2] is None,
            forall|j: int| 3 <= j < k ==> j < n && #[trigger] r@[j] is Some,
        decreases 5 - k,
    {
        if n <= k {
            return None;
        }
        if r[k].is_none() {
            return Some(Err(TupleViolation::MissingKey(k)));
        }
        k = k + 1;
    }
    if rank_eq(r[3], r[4]) {
        return Some(Err(TupleViolation::MissingTokensCollapsed));
    }
    while k < 7
        invariant
            5 <= k <= 7,
            n == r.len(),
            r@[0] == r@[1],
            r@[2] is None,
            r@[3] is Some && r@[4] is Some && r@[3] != r@[4],
            forall|j: int| 3 <= j < k ==> j < n && #[trigger] r@[j] is Some,
        decreases 7 - k,
    {
        if n <= k {
            return None;
        }
        if r[k].is_none() {
            return Some(Err(TupleViolation::MissingKey(k)));
        }
        k = k + 1;
    }
    if rank_eq(r[5], r[6]) {
        return Some(Err(TupleViolation::IdentityOmitsComponent));
    }
    while k < 9
        invariant
            7 <= k <= 9,
            n == r.len(),
            r@[0] == r@[1],
            r@[2] is None,
            r@[3] != r@[4],
            r@[5] != r@[6],
            forall|j: int| 3 <= j < k ==> j < n && #[trigger] r@[j] is Some,
        decreases 9 - k,
    {
        if n <= k {
            return None;
        }
        if r[k].is_none() {
            return Some(Err(TupleViolation::MissingKey(k)));
        }
        k = k + 1;
    }
    if rank_eq(r[7], r[8]) {
        return Some(Err(TupleViolation::BoundariesFlattened));
    }
    while k < 12
        invariant
            9 <= k <= 12,
            n == r.len(),
            r@[0] == r@[1],
            r@[2] is None,
            r@[3] != r@[4],
            r@[5] != r@[6],
            r@[7] != r@[8],
            forall|j: int| 3 <= j < k ==> j < n && #[trigger] r@[j] is Some,
        decreases 12 - k,
    {
        if n <= k {
            return None;
        }
        if r[k].is_none() {
            return Some(Err(TupleViolation::MissingKey(k)));
        }
        k = k + 1;
    }
    if !rank_eq(r[10], r[11]) {
        return Some(Err(TupleViolation::DuplicatesDiffer));
    }
    while k < 18
        invariant
            12 <= k <= 18,
            n == r.len(),
            r@[0] == r@[1],
            r@[2] is None,
            r@[3] != r@[4],
            r@[5] != r@[6],
            r@[7] != r@[8],
            r@[10] == r@[11],
            forall|j: int| 3 <= j < k ==> j < n && #[trigger] r@[j] is Some,
        decreases 18 - k,
    {
        if n <= k {
            return None;
        }
        if r[k].is_none() {
            return Some(Err(TupleViolation::MissingKey(k)));
        }
        k = k + 1;
    }
    let sorted = sort_three(r[12].unwrap(), r[13].unwrap(), r[14].unwrap());
    if !(sorted.0 == r[15].unwrap() && sorted.1 == r[16].unwrap() && sorted.2 == r[17].unwrap()) {
        return Some(Err(TupleViolation::OrderNotLexicographic));
    }
    while k < 20
        invariant
            18 <= k <= 20,
            n == r.len(),
            r@[0] == r@[1],
            r@[2] is None,
            r@[3] != r@[4],
            r@[5] != r@[6],
            r@[7] != r@[8],
            r@[10] == r@[11],
            sort3(r@[12].unwrap(), r@[13].unwrap(), r@[14].unwrap()) == (
                r@[15].unwrap(),
                r@[16].unwrap(),
                r@[17].unwrap(),
            ),
            forall|j: int| 3 <= j < k ==> j < n && #[trigger] r@[j] is Some,
        decreases 20 - k,
    {
        if n <= k {
            return None;
        }
        if r[k].is_none() {
            return Some(Err(TupleViolation::MissingKey(k)));
        }
        k = k + 1;
    }
    if rank_eq(r[18], r[19]) {
        return Some(Err(TupleViolation::ComponentOrderIgnored));
    }
    Some(Ok(()))
}

/// `sort3` puts three ranks in ascending order without losing or adding one.
pub proof fn lemma_sort3_sorts(a: u64, b: u64, c: u64)
    ensures
        ({
            let (x, y, z) = sort3(a, b, c);
            &&& x <= y <= z
            &&& seq![x, y, z].to_multiset() =~= seq![a, b, c].to_multiset()
        }),
{
    broadcast use vstd::multiset::group_multiset_axioms;
    broadcast use vstd::seq_lib::group_to_multiset_ensures;
    let (x, y, z) = sort3(a, b, c);
    assert(seq![x, y, z] =~= seq![x].push(y).push(z));
    assert(seq![a, b, c] =~= seq![a].push(b).push(c));
    assert(seq![x] =~= Seq::<u64>::empty().push(x));
    assert(seq![a] =~= Seq::<u64>::empty().push(a));
}

// ---------------------------------------------------------------------------
// Machine encoding of components
// ---------------------------------------------------------------------------

/// The lower-case hexadecimal digit of `n` (for `n < 16`).
pub open spec fn hex_digit(n: u8) -> char {
    if n < 10 {
        (n + 48) as char
    } else {
        (n + 87) as char
    }
}

/// Two lower-case hexadecimal digits per byte, high digit first.
pub open spec fn hex_lower(bytes: Seq<u8>) -> Seq<char>
    decreases bytes.len(),
{
    if bytes.len() == 0 {
        seq![]
    } else {
        hex_lower(bytes.drop_last()) + seq![
            hex_digit(bytes.last() / 16),
            hex_digit(bytes.last() % 16),
        ]
    }
}

/// The machine encoding of a component: `u8:` and the text when the bytes are
/// valid UTF-8, else `hex:` and their lower-case hexadecimal digits.
pub open spec fn encoded_component(component: Seq<u8>) -> Seq<char> {
    if valid_utf8(component) {
        seq!['u', '8', ':'] + decode_utf8(component)
    } else {
        seq!['h', 'e', 'x', ':'] + hex_lower(component)
    }
}

fn hex_digit_char(n: u8) -> (c: char)
    requires
        n < 16,
    ensures
        c == hex_digit(n),
{
    if n < 10 {
        (n + 48) as char
    } else {
        (n + 87) as char
    }
}

/// Encode one component using the shared `u8:` / `hex:` machine convention.
pub fn encode_key_component(component: &[u8]) -> (r: String)
    ensures
        r@ == encoded_component(component@),
        !valid_utf8(component@) ==> r@.len() == 4 + 2 * component@.len() && r@.take(4) == seq![
            'h',
            'e',
            'x',
            ':',
        ] && forall|i: int|
            0 <= i < component@.len() ==> spells_byte(r@, 4 + 2 * i, #[trigger] component@[i]),
{
    proof {
        if !valid_utf8(component@) {
            lemma_binary_component_encoding(component@);
        }
    }
    let mut r = String::new();
    match utf8_str(component) {
        Some(text) => {
            push_char(&mut r, 'u');
            push_char(&mut r, '8');
            push_char(&mut r, ':');
            r.append(text);
            proof {
                encode_utf8_decode_utf8(text@);
                assert(r@ =~= seq!['u', '8', ':'] + decode_utf8(component@));
            }
            r
        },
        None => {
            push_char(&mut r, 'h');
            push_char(&mut r, 'e');
            push_char(&mut r, 'x');
            push_char(&mut r, ':');
            let ghost prefix = r@;
            assert(prefix =~= seq!['h', 'e', 'x', ':']);
            let mut i: usize = 0;
            while i < component.len()
                invariant
                    i <= component.len(),
                    r@ == prefix + hex_lower(component@.take(i as int)),
                decreases component.len() - i,
            {
                let byte = component[i];
                push_char(&mut r, hex_digit_char(byte / 16));
                push_char(&mut r, hex_digit_char(byte % 16));
                proof {
                    let t = component@.take(i + 1);
                    assert(t.drop_last() =~= component@.take(i as int));
                    assert(t.last() == byte);
                    assert(r@ =~= prefix + hex_lower(t));
                }
                i = i + 1;
            }
            assert(component@.take(component.len() as int) =~= component@);
            r
        },
    }
}

/// `c` is a lower-case hexadecimal digit: `0`-`9` or `a`-`f`.
pub open spec fn is_lower_hex_char(c: char) -> bool {
    ('0' <= c && c <= '9') || ('a' <= c && c <= 'f')
}

/// The number that the hexadecimal digit `c` stands for.
pub open spec fn lower_hex_value(c: char) -> int {
    if c <= '9' {
        c as int - 48
    } else {
        c as int - 87
    }
}

proof fn lemma_hex_digit_value(n: u8)
    requires
        n < 16,
    ensures
        is_lower_hex_char(hex_digit(n)),
        lower_hex_value(hex_digit(n)) == n,
{
}

/// The two characters of `h` from `at` are lower-case hexadecimal digits,
/// high digit first, that read as the byte `b`.
pub open spec fn spells_byte(h: Seq<char>, at: int, b: u8) -> bool {
    &&& is_lower_hex_char(h[at])
    &&& is_lower_hex_char(h[at + 1])
    &&& lower_hex_value(h[at]) * 16 + lower_hex_value(h[at + 1]) == b
}

/// The hexadecimal spelling of bytes gives each byte as two lower-case
/// digits, high digit first, that read back as the byte.
pub proof fn lemma_hex_lower_spells_bytes(bytes: Seq<u8>)
    ensures
        hex_lower(bytes).len() == 2 * bytes.len(),
        forall|i: int|
            0 <= i < bytes.len() ==> spells_byte(hex_lower(bytes), 2 * i, #[trigger] bytes[i]),
    decreases bytes.len(),
{
    if bytes.len() > 0 {
        let init = bytes.drop_last();
        lemma_hex_lower_spells_bytes(init);
        let b = bytes.last();
        lemma_hex_digit_value(b / 16);
        lemma_hex_digit_value(b % 16);
        let h = hex_lower(bytes);
        let hi = hex_lower(init);
        assert(h == hi + seq![hex_digit(b / 16), hex_digit(b % 16)]);
        assert forall|i: int| 0 <= i < bytes.len() implies spells_byte(h, 2 * i, #[trigger] bytes[i]) by {
            if i < init.len() {
                assert(init[i] == bytes[i]);
                assert(spells_byte(hi, 2 * i, init[i]));
                assert(h[2 * i] == hi[2 * i]);
                assert(h[2 * i + 1] == hi[2 * i + 1]);
            } else {
                assert(i == init.len());
                assert(h[2 * i] == hex_digit(b / 16));
                assert(h[2 * i + 1] == hex_digit(b % 16));
                assert((b / 16) * 16 + b % 16 == b);
            }
        }
    }
}

/// A component that is not UTF-8 is written `hex:` and then each of its
/// bytes as two lower-case hexadecimal digits that read back as the byte.
pub proof fn lemma_binary_component_encoding(component: Seq<u8>)
    requires
        !valid_utf8(component),
    ensures
        encoded_component(component).len() == 4 + 2 * component.len(),
        encoded_component(component).take(4) == seq!['h', 'e', 'x', ':'],
        forall|i: int|
            0 <= i < component.len() ==> spells_byte(
                encoded_component(component),
                4 + 2 * i,
                #[trigger] component[i],
            ),
{
    lemma_hex_lower_spells_bytes(component);
    let e = encoded_component(component);
    let h = hex_lower(component);
    assert(e == seq!['h', 'e', 'x', ':'] + h);
    assert(e.take(4) =~= seq!['h', 'e', 'x', ':']);
    assert forall|i: int| 0 <= i < component.len() implies spells_byte(
        e,
        4 + 2 * i,
        #[trigger] component[i],
    ) by {
        assert(spells_byte(h, 2 * i, component[i]));
        assert(e[4 + 2 * i] == h[2 * i]);
        assert(e[4 + 2 * i + 1] == h[2 * i + 1]);
    }
}

proof fn lemma_hex_digit_injective(x: u8, y: u8)
    requires
        x < 16,
        y < 16,
        hex_digit(x) == hex_digit(y),
    ensures
        x == y,
{
}

proof fn lemma_hex_lower_len(bytes: Seq<u8>)
    ensures
        hex_lower(bytes).len() == 2 * bytes.len(),
    decreases bytes.len(),
{
    if bytes.len() > 0 {
        lemma_hex_lower_len(bytes.drop_last());
    }
}

proof fn lemma_hex_lower_injective(a: Seq<u8>, b: Seq<u8>)
    requires
        hex_lower(a) == hex_lower(b),
    ensures
        a == b,
    decreases a.len(),
{
    lemma_hex_lower_len(a);
    lemma_hex_lower_len(b);
    if a.len() > 0 {
        let ha = hex_lower(a);
        let pa = hex_lower(a.drop_last());
        let pb = hex_lower(b.drop_last());
        lemma_hex_lower_len(a.drop_last());
        lemma_hex_lower_len(b.drop_last());
        let n = ha.len() as int;
        assert(ha[n - 2] == hex_digit(a.last() / 16));
        assert(ha[n - 1] == hex_digit(a.last() % 16));
        assert(hex_lower(b)[n - 2] == hex_digit(b.last() / 16));
        assert(hex_lower(b)[n - 1] == hex_digit(b.last() % 16));
        lemma_hex_digit_injective(a.last() / 16, b.last() / 16);
        lemma_hex_digit_injective(a.last() % 16, b.last() % 16);
        assert(a.last() == b.last());
        assert(pa =~= ha.take(n - 2));
        assert(pb =~= hex_lower(b).take(n - 2));
        lemma_hex_lower_injective(a.drop_last(), b.drop_last());
        assert(a =~= a.drop_last().push(a.last()));
        assert(b =~= b.drop_last().push(b.last()));
    } else {
        assert(a =~= b);
    }
}

/// Distinct components have distinct encodings: the encoded component array
/// determines the key, so it can serve as the authoritative machine value.
pub proof fn lemma_encoding_injective(a: Seq<u8>, b: Seq<u8>)
    requires
        encoded_component(a) == encoded_component(b),
    ensures
        a == b,
{
    let ea = encoded_component(a);
    if valid_utf8(a) && valid_utf8(b) {
        assert(decode_utf8(a) =~= ea.skip(3));
        assert(decode_utf8(b) =~= ea.skip(3));
        decode_utf8_encode_utf8(a);
        decode_utf8_encode_utf8(b);
    } else if !valid_utf8(a) && !valid_utf8(b) {
        assert(hex_lower(a) =~= ea.skip(4));
        assert(hex_lower(b) =~= ea.skip(4));
        lemma_hex_lower_injective(a, b);
    } else {
        assert(encoded_component(a)[0] != encoded_component(b)[0]);
    }
}

/// Distinct keys have distinct encoded component arrays.
pub proof fn lemma_encoded_key_injective(a: Seq<Seq<u8>>, b: Seq<Seq<u8>>)
    requires
        encoded_key(a) == encoded_key(b),
    ensures
        a == b,
{
    assert(encoded_key(a).len() == a.len());
    assert(encoded_key(b).len() == b.len());
    assert forall|i: int| 0 <= i < a.len() implies a[i] == b[i] by {
        assert(encoded_key(a)[i] == encoded_component(a[i]));
        assert(encoded_key(b)[i] == encoded_component(b[i]));
        lemma_encoding_injective(a[i], b[i]);
    }
    assert(a =~= b);
}

// ---------------------------------------------------------------------------
// Authoritative key output in JSON
// ---------------------------------------------------------------------------

/// The character sequences of a list of strings.
pub open spec fn strings_view(v: Seq<String>) -> Seq<Seq<char>> {
    v.map_values(|s: String| s@)
}

/// `parts` joined with `sep` between each two neighbours.
pub open spec fn join_with(parts: Seq<Seq<char>>, sep: Seq<char>) -> Seq<char>
    decreases parts.len(),
{
    if parts.len() == 0 {
        seq![]
    } else if parts.len() == 1 {
        parts[0]
    } else {
        join_with(parts.drop_last(), sep) + sep + parts.last()
    }
}

/// The separator of the display label, `" + "`.
pub open spec fn label_separator() -> Seq<char> {
    seq![' ', '+', ' ']
}

/// A label of one part is that part, and a label grows by `" + "` and the
/// new part when a part is added at the end.
pub proof fn lemma_label_grows_by_part(parts: Seq<Seq<char>>, x: Seq<char>)
    ensures
        join_with(seq![x], label_separator()) == x,
        parts.len() > 0 ==> join_with(parts.push(x), label_separator()) == join_with(
            parts,
            label_separator(),
        ) + seq![' ', '+', ' '] + x,
{
    assert(parts.push(x).drop_last() =~= parts);
}

/// The encodings of a key's components, in order.
pub open spec fn encoded_key(key: Seq<Seq<u8>>) -> Seq<Seq<char>> {
    key.map_values(|c: Seq<u8>| encoded_component(c))
}

/// The display-only label of a key: its encoded components joined by `" + "`.
pub fn display_label(encoded: &Vec<String>) -> (label: String)
    ensures
        label@ == join_with(strings_view(encoded@), label_separator()),
{
    let ghost parts = strings_view(encoded@);
    let mut label = String::new();
    let mut i: usize = 0;
    while i < encoded.len()
        invariant
            i <= encoded.len(),
            parts == strings_view(encoded@),
            label@ == join_with(parts.take(i as int), label_separator()),
        decreases encoded.len() - i,
    {
        if i > 0 {
            label.append(" + ");
            proof {
                reveal_strlit(" + ");
            }
        }
        label.append(encoded[i].as_str());
        proof {
            let t = parts.take(i + 1);
            assert(t.drop_last() =~= parts.take(i as int));
            assert(t.last() == encoded@[i as int]@);
            if i == 0 {
                assert(label@ =~= t[0]);
            } else {
                assert(label@ =~= join_with(t.drop_last(), label_separator()) + label_separator()
                    + t.last());
            }
        }
        i = i + 1;
    }
    assert(parts.take(encoded.len() as int) =~= parts);
    label
}

/// What a JSON Pointer finds in a tool's output, as far as the key checks
/// read it.
#[derive(Clone, Debug, PartialEq, Eq)]
pub enum PointedField {
    /// Nothing is at the pointer.
    Missing,
    /// A JSON string.
    Text(String),
    /// A JSON array: the text of each element that is a string, `None` for
    /// each element that is not.
    Array(Vec<Option<String>>),
    /// Any other JSON value.
    Other,
}

/// Whether `field` is an array of exactly the strings `encoded`, in order.
pub open spec fn components_match(field: PointedField, encoded: Seq<Seq<char>>) -> bool {
    match field {
        PointedField::Array(v) => v@.len() == encoded.len() && forall|i: int|
            0 <= i < encoded.len() ==> (#[trigger] v@[i] matches Some(s) && s@ == encoded[i]),
        _ => false,
    }
}

/// Whether `field` is the string `label`.
pub open spec fn label_matches(field: PointedField, label: Seq<char>) -> bool {
    match field {
        PointedField::Text(s) => s@ == label,
        _ => false,
    }
}

/// The first rule of authoritative key output that an output breaks.
#[derive(Clone, Copy, Debug, PartialEq, Eq)]
pub enum KeyOutputViolation {
    /// The expected raw components do not form a complete key.
    IncompleteExpectedKey,
    /// Nothing is at the pointer of the component array.
    MissingComponents,
    /// The component array is not the encoded components, in order.
    ComponentsMismatch,
    /// Nothing is at the pointer of the display label.
    MissingDisplay,
    /// The display label is not the encoded components joined by `" + "`.
    DisplayMismatch,
}

impl KeyOutputViolation {
    /// The text that states the broken rule, naming the pointer concerned.
    pub open spec fn text(
        self,
        components_pointer: Seq<char>,
        display_pointer: Seq<char>,
    ) -> Seq<char> {
        match self {
            KeyOutputViolation::IncompleteExpectedKey =>
                "expected output key fixture must be complete"@,
            KeyOutputViolation::MissingComponents =>
                "missing authoritative key component array at JSON pointer "@
                    + components_pointer,
            KeyOutputViolation::ComponentsMismatch => "machine key components at "@
                + components_pointer + " must be authoritative and ordered"@,
            KeyOutputViolation::MissingDisplay => "missing display-only key label at JSON pointer "@
                + display_pointer,
            KeyOutputViolation::DisplayMismatch => "display key label at "@ + display_pointer
                + " must be derived from the component array"@,
        }
    }

    /// The message that states the broken rule, naming the pointer concerned.
    pub fn message(&self, components_pointer: &str, display_pointer: &str) -> (m: String)
        ensures
            m@ == self.text(components_pointer@, display_pointer@),
    {
        match self {
            KeyOutputViolation::IncompleteExpectedKey => String::from_str(
                "expected output key fixture must be complete",
            ),
            KeyOutputViolation::MissingComponents => {
                let mut m = String::from_str(
                    "missing authoritative key component array at JSON pointer ",
                );
                m.append(components_pointer);
                m
            },
            KeyOutputViolation::ComponentsMismatch => {
                let mut m = String::from_str("machine key components at ");
                m.append(components_pointer);
                m.append(" must be authoritative and ordered");
                m
            },
            KeyOutputViolation::MissingDisplay => {
                let mut m = String::from_str("missing display-only key label at JSON pointer ");
                m.append(display_pointer);
                m
            },
            KeyOutputViolation::DisplayMismatch => {
                let mut m = String::from_str("display key label at ");
                m.append(display_pointer);
                m.append(" must be derived from the component array");
                m
            },
        }
    }
}

/// The verdict on a key output, given what the two pointers found and the
/// expected raw components.
pub open spec fn key_output_verdict(
    components: PointedField,
    display: PointedField,
    expected: Seq<Seq<u8>>,
) -> Result<(), KeyOutputViolation> {
    match reference_key(expected) {
        None => Err(KeyOutputViolation::IncompleteExpectedKey),
        Some(key) => {
            let encoded = encoded_key(key);
            if components is Missing {
                Err(KeyOutputViolation::MissingComponents)
            } else if !components_match(components, encoded) {
                Err(KeyOutputViolation::ComponentsMismatch)
            } else if display is Missing {
                Err(KeyOutputViolation::MissingDisplay)
            } else if !label_matches(display, join_with(encoded, label_separator())) {
                Err(KeyOutputViolation::DisplayMismatch)
            } else {
                Ok(())
            }
        },
    }
}

/// Whether `f` is what the key checks read at `pointer` in `output`: nothing
/// when the pointer finds nothing; the text of a string; for an array, the
/// text of each string element and `None` for each other element, in order;
/// `Other` for any other value.
pub open spec fn field_matches(f: PointedField, output: serde_json::Value, pointer: Seq<char>) -> bool {
    match json_pointer_target(output, pointer) {
        None => f is Missing,
        Some(v) => match json_text_of(v) {
            Some(t) => f matches PointedField::Text(s) && s@ == t,
            None => match json_items_of(v) {
                Some(items) => f matches PointedField::Array(xs) && xs@.len() == items.len()
                    && forall|i: int|
                    0 <= i < items.len() ==> (#[trigger] xs@[i] is Some <==> json_text_of(items[i]) is Some)
                        && (xs@[i] matches Some(s) ==> json_text_of(items[i]) == Some(s@)),
                None => f is Other,
            },
        },
    }
}

/// Reads what `pointer` addresses in `output` (see `field_matches`). The
/// empty pointer addresses the whole output, so something is found; a
/// non-empty pointer without a leading `/` finds nothing.
pub fn observe_field(output: &serde_json::Value, pointer: &str) -> (f: PointedField)
    ensures
        field_matches(f, *output, pointer@),
        pointer@.len() == 0 ==> !(f is Missing),
        pointer@.len() > 0 && pointer@[0] != '/' ==> f is Missing,
{
    match json_pointer(output, pointer) {
        None => PointedField::Missing,
        Some(v) => match json_as_str(v) {
            Some(text) => PointedField::Text(text.to_owned()),
            None => match json_as_array(v) {
                Some(items) => {
                    let mut texts: Vec<Option<String>> = Vec::new();
                    let mut i: usize = 0;
                    while i < items.len()
                        invariant
                            i <= items.len(),
                            texts@.len() == i,
                            forall|k: int|
                                0 <= k < i ==> (#[trigger] texts@[k] is Some <==> json_text_of(
                                    items@[k],
                                ) is Some) && (texts@[k] matches Some(s) ==> json_text_of(items@[k])
                                    == Some(s@)),
                        decreases items.len() - i,
                    {
                        match json_as_str(&items[i]) {
                            Some(t) => texts.push(Some(t.to_owned())),
                            None => texts.push(None),
                        }
                        i = i + 1;
                    }
                    PointedField::Array(texts)
                },
                None => PointedField::Other,
            },
        },
    }
}

/// An accepted key output holds, at the components field, an array with one
/// element per expected component and nothing more, and its `i`-th element
/// is the string encoding of the `i`-th expected component, ASCII-trimmed.
pub proof fn lemma_accepted_components_are_authoritative(
    components: PointedField,
    display: PointedField,
    expected: Seq<Seq<u8>>,
)
    requires
        key_output_verdict(components, display, expected) is Ok,
    ensures
        components matches PointedField::Array(v) && v@.len() == expected.len() && forall|i: int|
            0 <= i < expected.len() ==> (#[trigger] v@[i] matches Some(s) && s@ == encoded_component(
                ascii_trimmed(expected[i]),
            )),
{
    let key = reference_key(expected).unwrap();
    assert(key.len() == expected.len());
    assert forall|i: int| 0 <= i < expected.len() implies #[trigger] encoded_key(key)[i]
        == encoded_component(ascii_trimmed(expected[i])) by {
        assert(key[i] == ascii_trimmed(expected[i]));
    }
}

/// The same for a JSON output: when it is accepted, the value at the
/// components pointer is an array with exactly one element per expected
/// component, and its `i`-th element is the string encoding of the `i`-th
/// expected component, ASCII-trimmed.
pub proof fn lemma_accepted_output_components_are_authoritative(
    output: serde_json::Value,
    components_pointer: Seq<char>,
    display_pointer: Seq<char>,
    expected: Seq<Seq<u8>>,
)
    requires
        key_output_verdict_at(output, components_pointer, display_pointer, expected) is Ok,
    ensures
        json_pointer_target(output, components_pointer) matches Some(v) && json_items_of(v) matches Some(
            items,
        ) && items.len() == expected.len() && forall|i: int|
            0 <= i < expected.len() ==> json_text_of(#[trigger] items[i]) == Some(
                encoded_component(ascii_trimmed(expected[i])),
            ),
{
    let key = reference_key(expected).unwrap();
    assert(key.len() == expected.len());
    assert forall|i: int| 0 <= i < expected.len() implies #[trigger] encoded_key(key)[i]
        == encoded_component(ascii_trimmed(expected[i])) by {
        assert(key[i] == ascii_trimmed(expected[i]));
    }
}

/// Judges a key output from what its two pointers found.
#[verifier::loop_isolation(false)]
pub fn judge_key_output(
    components: &PointedField,
    display: &PointedField,
    expected_raw_components: &[Vec<u8>],
) -> (res: Result<(), KeyOutputViolation>)
    ensures
        res == key_output_verdict(*components, *display, components_view(expected_raw_components)),
        res is Ok ==> (*components matches PointedField::Array(v) && v@.len()
            == expected_raw_components.len() && forall|i: int|
            0 <= i < expected_raw_components.len() ==> (#[trigger] v@[i] matches Some(s) && s@
                == encoded_component(ascii_trimmed(expected_raw_components@[i]@)))),
{
    proof {
        if key_output_verdict(*components, *display, components_view(expected_raw_components)) is Ok {
            lemma_accepted_components_are_authoritative(
                *components,
                *display,
                components_view(expected_raw_components),
            );
        }
    }
    let key = match reference_key_tuple(expected_raw_components) {
        Some(k) => k,
        None => return Err(KeyOutputViolation::IncompleteExpectedKey),
    };
    let ghost kv = tuple_view(key);
    let ghost enc = encoded_key(kv);
    let mut encoded: Vec<String> = Vec::new();
    let mut i: usize = 0;
    while i < key.len()
        invariant
            i <= key.len(),
            kv == tuple_view(key),
            enc == encoded_key(kv),
            encoded.len() == i,
            forall|j: int| 0 <= j < i ==> #[trigger] encoded@[j]@ == enc[j],
        decreases key.len() - i,
    {
        let e = encode_key_component(key[i].as_slice());
        encoded.push(e);
        i = i + 1;
    }
    assert(strings_view(encoded@) =~= enc);
    match components {
        PointedField::Missing => {
            return Err(KeyOutputViolation::MissingComponents);
        },
        PointedField::Array(items) => {
            if items.len() != encoded.len() {
                return Err(KeyOutputViolation::ComponentsMismatch);
            }
            let mut j: usize = 0;
            while j < items.len()
                invariant
                    j <= items.len() == encoded.len() == enc.len(),
                    forall|k: int| 0 <= k < encoded.len() ==> #[trigger] encoded@[k]@ == enc[k],
                    forall|k: int|
                        0 <= k < j ==> (#[trigger] items@[k] matches Some(s) && s@ == enc[k]),
                decreases items.len() - j,
            {
                match &items[j] {
                    Some(s) => {
                        if !(*s == encoded[j]) {
                            return Err(KeyOutputViolation::ComponentsMismatch);
                        }
                    },
                    None => {
                        return Err(KeyOutputViolation::ComponentsMismatch);
                    },
                }
                j = j + 1;
            }
        },
        _ => {
            return Err(KeyOutputViolation::ComponentsMismatch);
        },
    }
    let label = display_label(&encoded);
    match display {
        PointedField::Missing => Err(KeyOutputViolation::MissingDisplay),
        PointedField::Text(s) => {
            if *s == label {
                Ok(())
            } else {
                Err(KeyOutputViolation::DisplayMismatch)
            }
        },
        _ => Err(KeyOutputViolation::DisplayMismatch),
    }
}

/// Whether the value at `pointer` in `output` is an array of exactly the
/// strings `encoded`, in order.
pub open spec fn components_at(output: serde_json::Value, pointer: Seq<char>, encoded: Seq<Seq<char>>) -> bool {
    match json_pointer_target(output, pointer) {
        Some(v) => json_text_of(v) is None && match json_items_of(v) {
            Some(items) => items.len() == encoded.len() && forall|i: int|
                0 <= i < encoded.len() ==> json_text_of(#[trigger] items[i]) == Some(encoded[i]),
            None => false,
        },
        None => false,
    }
}

/// Whether the value at `pointer` in `output` is the string `label`.
pub open spec fn label_at(output: serde_json::Value, pointer: Seq<char>, label: Seq<char>) -> bool {
    match json_pointer_target(output, pointer) {
        Some(v) => json_text_of(v) == Some(label),
        None => false,
    }
}

/// The verdict on a JSON output's key fields: the expected key must be
/// complete; at `components_pointer` must stand the array of its encoded
/// components, in order; at `display_pointer` the label that joins them
/// with `" + "`.
pub open spec fn key_output_verdict_at(
    output: serde_json::Value,
    components_pointer: Seq<char>,
    display_pointer: Seq<char>,
    expected: Seq<Seq<u8>>,
) -> Result<(), KeyOutputViolation> {
    match reference_key(expected) {
        None => Err(KeyOutputViolation::IncompleteExpectedKey),
        Some(key) => {
            let encoded = encoded_key(key);
            if json_pointer_target(output, components_pointer) is None {
                Err(KeyOutputViolation::MissingComponents)
            } else if !components_at(output, components_pointer, encoded) {
                Err(KeyOutputViolation::ComponentsMismatch)
            } else if json_pointer_target(output, display_pointer) is None {
                Err(KeyOutputViolation::MissingDisplay)
            } else if !label_at(output, display_pointer, join_with(encoded, label_separator())) {
                Err(KeyOutputViolation::DisplayMismatch)
            } else {
                Ok(())
            }
        },
    }
}

/// What the key checks read at a pointer decides as the output itself does.
proof fn lemma_field_reading(
    f: PointedField,
    output: serde_json::Value,
    pointer: Seq<char>,
    encoded: Seq<Seq<char>>,
    label: Seq<char>,
)
    requires
        field_matches(f, output, pointer),
    ensures
        (f is Missing) <==> json_pointer_target(output, pointer) is None,
        components_match(f, encoded) <==> components_at(output, pointer, encoded),
        label_matches(f, label) <==> label_at(output, pointer, label),
{
    match json_pointer_target(output, pointer) {
        None => {},
        Some(v) => match json_text_of(v) {
            Some(t) => {},
            None => match json_items_of(v) {
                Some(items) => {
                    if let PointedField::Array(xs) = f {
                        if components_match(f, encoded) {
                            assert forall|i: int| 0 <= i < encoded.len() implies json_text_of(
                                #[trigger] items[i],
                            ) == Some(encoded[i]) by {
                                assert(xs@[i] matches Some(s) && s@ == encoded[i]);
                            }
                        }
                        if components_at(output, pointer, encoded) {
                            assert forall|i: int| 0 <= i < encoded.len() implies (
                            #[trigger] xs@[i] matches Some(s) && s@ == encoded[i]) by {
                                assert(json_text_of(items[i]) == Some(encoded[i]));
                            }
                        }
                    }
                },
                None => {},
            },
        },
    }
}

/// Checks that a JSON output exposes the authoritative encoded component
/// array of the expected key at `components_pointer`, and at
/// `display_pointer` the display label derived from that array.
pub fn assert_authoritative_key_output(
    output: &serde_json::Value,
    components_pointer: &str,
    display_pointer: &str,
    expected_raw_components: &[Vec<u8>],
) -> (res: Result<(), KeyOutputViolation>)
    ensures
        res == key_output_verdict_at(
            *output,
            components_pointer@,
            display_pointer@,
            components_view(expected_raw_components),
        ),
        res is Ok ==> (json_pointer_target(*output, components_pointer@) matches Some(v)
            && json_items_of(v) matches Some(items) && items.len() == expected_raw_components.len()
            && forall|i: int|
            0 <= i < expected_raw_components.len() ==> json_text_of(#[trigger] items[i]) == Some(
                encoded_component(ascii_trimmed(expected_raw_components@[i]@)),
            )),
{
    proof {
        if key_output_verdict_at(
            *output,
            components_pointer@,
            display_pointer@,
            components_view(expected_raw_components),
        ) is Ok {
            lemma_accepted_output_components_are_authoritative(
                *output,
                components_pointer@,
                display_pointer@,
                components_view(expected_raw_components),
            );
        }
    }
    let components = observe_field(output, components_pointer);
    let display = observe_field(output, display_pointer);
    proof {
        if let Some(key) = reference_key(components_view(expected_raw_components)) {
            let encoded = encoded_key(key);
            lemma_field_reading(
                components,
                *output,
                components_pointer@,
                encoded,
                join_with(encoded, label_separator()),
            );
            lemma_field_reading(
                display,
                *output,
                display_pointer@,
                encoded,
                join_with(encoded, label_separator()),
            );
        }
    }
    judge_key_output(&components, &display, expected_raw_components)
}

} // verus!
