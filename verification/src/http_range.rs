//! Byte-range header resolution: the grammar
//! `"bytes=" range-spec ("," range-spec)* ["/" total]` is resolved
//! against a known resource length into a sorted list of byte
//! intervals in which overlapping or touching intervals are merged.

use crate::text::{
    append_u64, chars_of, dec_rep, is_digit, is_ws, lemma_concat_free,
    lemma_dec_rep_digits, lemma_dec_rep_roundtrip, lemma_digits_free, lemma_digits_no_ws,
    lemma_join_free, lemma_join_split, lemma_split_append, lemma_split_no_sep, lemma_trim_id,
    parse_u64, spec_join, spec_parse_u64, spec_split, spec_trim, split_trim, split_trim_chars,
    views_of,
};
use vstd::prelude::*;

verus! {

/// An inclusive span of bytes within a resource.
#[derive(Clone, Copy, Debug, PartialEq, Eq, Structural)]
pub struct ByteRange {
    pub start: u64,
    pub end: u64,
}

impl ByteRange {
    /// A range can be served from a resource of `total` bytes exactly when
    /// it is non-empty and lies entirely inside the resource.
    pub open spec fn satisfiable(self, total: u64) -> bool {
        self.start <= self.end < total
    }
}

/// The optional total-length tag that a range value may carry after a
/// `/`: a known byte count, or `*` for an unknown one.
#[derive(Clone, Copy, Debug, PartialEq, Eq, Structural)]
pub enum CompleteLength {
    Representation(u64),
    Unknown,
}

/// A parsed range header: the resolved byte intervals and the optional
/// total-length tag.
#[derive(Debug, PartialEq)]
pub struct HttpRange {
    pub ranges: Vec<ByteRange>,
    pub complete_length: Option<CompleteLength>,
}

impl View for HttpRange {
    type V = (Seq<ByteRange>, Option<CompleteLength>);

    open spec fn view(&self) -> (Seq<ByteRange>, Option<CompleteLength>) {
        (self.ranges@, self.complete_length)
    }
}

/// Ranges sorted in ascending order of their starting offset.
pub open spec fn sorted_by_start(rs: Seq<ByteRange>) -> bool {
    forall|i: int, j: int| 0 <= i < j < rs.len() ==> rs[i].start <= rs[j].start
}

/// A normalized range list: every range is non-empty, and the list is
/// sorted with a gap of at least one byte between consecutive ranges,
/// so that no two ranges overlap or touch.
pub open spec fn wf_ranges(rs: Seq<ByteRange>) -> bool {
    &&& forall|i: int| 0 <= i < rs.len() ==> (#[trigger] rs[i]).start <= rs[i].end
    &&& forall|i: int| 0 <= i < rs.len() - 1 ==> (#[trigger] rs[i]).end + 1 < rs[i + 1].start
}

/// The sequence of characters `bytes`, the only accepted range unit.
pub open spec fn unit_chars() -> Seq<char> {
    seq!['b', 'y', 't', 'e', 's']
}

/// What a single trimmed `range-spec` token resolves to against a
/// resource of `count` bytes:
/// - `start-end` is taken literally, provided `start <= end`;
/// - `-n` is the suffix of the last `n` bytes, provided `1 <= n <= count`;
/// - `start-` runs to the last byte, provided `start < count`;
/// - anything else is rejected.
pub open spec fn resolve_token(tok: Seq<char>, count: u64) -> Option<ByteRange> {
    let vs = split_trim(tok, '-');
    if vs.len() != 2 {
        None
    } else if vs[0].len() > 0 && vs[1].len() > 0 {
        match (spec_parse_u64(vs[0]), spec_parse_u64(vs[1])) {
            (Some(s), Some(e)) => if s <= e {
                Some(ByteRange { start: s, end: e })
            } else {
                None
            },
            _ => None,
        }
    } else if vs[0].len() == 0 && vs[1].len() > 0 {
        match spec_parse_u64(vs[1]) {
            Some(n) => if 1 <= n <= count {
                Some(ByteRange { start: (count - n) as u64, end: (count - 1) as u64 })
            } else {
                None
            },
            None => None,
        }
    } else if vs[0].len() > 0 && vs[1].len() == 0 {
        match spec_parse_u64(vs[0]) {
            Some(s) => if count > 0 && s <= count - 1 {
                Some(ByteRange { start: s, end: (count - 1) as u64 })
            } else {
                None
            },
            None => None,
        }
    } else {
        None
    }
}

/// Resolves every token; a single bad token rejects the whole list.
pub open spec fn resolve_tokens(toks: Seq<Seq<char>>, count: u64) -> Option<Seq<ByteRange>>
    decreases toks.len(),
{
    if toks.len() == 0 {
        Some(Seq::<ByteRange>::empty())
    } else {
        match (resolve_tokens(toks.drop_last(), count), resolve_token(toks.last(), count)) {
            (Some(rs), Some(r)) => Some(rs.push(r)),
            _ => None,
        }
    }
}

/// What the text after the `/` means: absent text means no tag, `*`
/// means an unknown total, a number is a known total, and anything
/// else rejects the header.
pub open spec fn spec_parse_tag(s: Seq<char>) -> Option<Option<CompleteLength>> {
    if s.len() == 0 {
        Some(None)
    } else if s == seq!['*'] {
        Some(Some(CompleteLength::Unknown))
    } else {
        match spec_parse_u64(s) {
            Some(n) => Some(Some(CompleteLength::Representation(n))),
            None => None,
        }
    }
}

/// Inserts a range into a list behind every range that starts no later.
pub open spec fn insert_by_start(rs: Seq<ByteRange>, r: ByteRange) -> Seq<ByteRange>
    decreases rs.len(),
{
    if rs.len() > 0 && rs[0].start <= r.start {
        seq![rs[0]] + insert_by_start(rs.skip(1), r)
    } else {
        seq![r] + rs
    }
}

/// Sorts ranges in ascending order of their starting offset.
pub open spec fn sort_by_start(rs: Seq<ByteRange>) -> Seq<ByteRange>
    decreases rs.len(),
{
    if rs.len() == 0 {
        Seq::<ByteRange>::empty()
    } else {
        insert_by_start(sort_by_start(rs.drop_last()), rs.last())
    }
}

/// The larger of two byte offsets.
pub open spec fn max_u64(a: u64, b: u64) -> u64 {
    if a >= b {
        a
    } else {
        b
    }
}

/// A single left-to-right sweep over a sorted list that extends a range
/// over its successor whenever the two overlap or touch.
pub open spec fn merge_ranges(rs: Seq<ByteRange>) -> Seq<ByteRange>
    decreases rs.len(),
{
    if rs.len() <= 1 {
        rs
    } else if rs[1].start <= rs[0].end + 1 {
        merge_ranges(
            seq![ByteRange { start: rs[0].start, end: max_u64(rs[0].end, rs[1].end) }] + rs.skip(2),
        )
    } else {
        seq![rs[0]] + merge_ranges(rs.skip(1))
    }
}

/// The whole grammar, resolved against a resource of `count` bytes:
/// the text before the `=` must be the unit `bytes` and the text after
/// it holds comma-separated range tokens, optionally followed by a
/// `/total` tag. Whitespace around any token is ignored. The result is
/// the sorted, merged range list and the tag; any malformed piece
/// rejects the whole header.
pub open spec fn spec_parse(s: Seq<char>, count: u64) -> Option<
    (Seq<ByteRange>, Option<CompleteLength>),
> {
    if s.len() == 0 {
        None
    } else {
        let parts = split_trim(s, '=');
        if parts[0] != unit_chars() || parts.len() != 2 {
            None
        } else {
            let params = split_trim(parts[1], '/');
            if params.len() > 2 {
                None
            } else {
                let tag_tok = if params.len() == 2 {
                    params[1]
                } else {
                    Seq::<char>::empty()
                };
                match (spec_parse_tag(tag_tok), resolve_tokens(split_trim(params[0], ','), count)) {
                    (Some(tag), Some(rs)) => Some((merge_ranges(sort_by_start(rs)), tag)),
                    _ => None,
                }
            }
        }
    }
}

/// Tests whether the characters spell the unit `bytes`.
fn is_unit_bytes(v: &Vec<char>) -> (r: bool)
    ensures
        r == (v@ == unit_chars()),
{
    let r = v.len() == 5 && v[0] == 'b' && v[1] == 'y' && v[2] == 't' && v[3] == 'e' && v[4] == 's';
    proof {
        if r {
            assert(v@ =~= unit_chars());
        } else if v@ == unit_chars() {
            assert(v@[0] == 'b' && v@[1] == 'y' && v@[2] == 't' && v@[3] == 'e' && v@[4] == 's');
        }
    }
    r
}

/// Reads the optional `/total` tag token.
fn parse_tag_token(s: &Vec<char>) -> (r: Option<Option<CompleteLength>>)
    ensures
        r == spec_parse_tag(s@),
{
    if s.len() == 0 {
        Some(None)
    } else if s.len() == 1 && s[0] == '*' {
        proof {
            assert(s@ =~= seq!['*']);
        }
        Some(Some(CompleteLength::Unknown))
    } else {
        proof {
            assert(s@ != seq!['*']) by {
                if s@ =~= seq!['*'] {
                    assert(s@.len() == 1 && s@[0] == '*');
                }
            }
        }
        match parse_u64(s) {
            Some(n) => Some(Some(CompleteLength::Representation(n))),
            None => None,
        }
    }
}

/// Resolves one trimmed `range-spec` token.
fn resolve_one(tok: &Vec<char>, count: u64) -> (r: Option<ByteRange>)
    ensures
        r == resolve_token(tok@, count),
{
    let vs = split_trim_chars(tok, '-');
    proof {
        crate::text::lemma_split_len(tok@, '-');
        assert(forall|i: int|
            0 <= i < vs@.len() ==> views_of(vs@)[i] == (#[trigger] vs@[i])@);
    }
    if vs.len() != 2 {
        return None;
    }
    if vs[0].len() > 0 && vs[1].len() > 0 {
        match (parse_u64(&vs[0]), parse_u64(&vs[1])) {
            (Some(s), Some(e)) => if s <= e {
                Some(ByteRange { start: s, end: e })
            } else {
                None
            },
            _ => None,
        }
    } else if vs[0].len() == 0 && vs[1].len() > 0 {
        match parse_u64(&vs[1]) {
            Some(n) => if 1 <= n && n <= count {
                Some(ByteRange { start: count - n, end: count - 1 })
            } else {
                None
            },
            None => None,
        }
    } else if vs[0].len() > 0 {
        match parse_u64(&vs[0]) {
            Some(s) => if count > 0 && s <= count - 1 {
                Some(ByteRange { start: s, end: count - 1 })
            } else {
                None
            },
            None => None,
        }
    } else {
        None
    }
}

/// One bad token anywhere rejects the whole token list.
proof fn lemma_resolve_tokens_elem_none(toks: Seq<Seq<char>>, count: u64, i: int)
    requires
        0 <= i < toks.len(),
        resolve_token(toks[i], count) is None,
    ensures
        resolve_tokens(toks, count) is None,
    decreases toks.len(),
{
    if i < toks.len() - 1 {
        lemma_resolve_tokens_elem_none(toks.drop_last(), count, i);
    }
}

/// Resolves every token of the list.
fn resolve_all(toks: &Vec<Vec<char>>, count: u64) -> (r: Option<Vec<ByteRange>>)
    ensures
        (match r {
            Some(rs) => resolve_tokens(views_of(toks@), count) == Some(rs@),
            None => resolve_tokens(views_of(toks@), count) is None,
        }),
{
    let mut rs: Vec<ByteRange> = Vec::new();
    let mut i: usize = 0;
    while i < toks.len()
        invariant
            i <= toks@.len(),
            resolve_tokens(views_of(toks@).take(i as int), count) == Some(rs@),
        decreases toks@.len() - i,
    {
        proof {
            assert(views_of(toks@).take(i + 1).drop_last() =~= views_of(toks@).take(i as int));
            assert(views_of(toks@).take(i + 1).last() == toks@[i as int]@);
        }
        match resolve_one(&toks[i], count) {
            Some(r) => {
                rs.push(r);
            },
            None => {
                proof {
                    lemma_resolve_tokens_elem_none(views_of(toks@), count, i as int);
                }
                return None;
            },
        }
        i = i + 1;
    }
    proof {
        assert(views_of(toks@).take(toks@.len() as int) =~= views_of(toks@));
    }
    Some(rs)
}

/// `insert_by_start` places the new range exactly at the first position
/// whose range starts later.
proof fn lemma_insert_by_start_at(s: Seq<ByteRange>, r: ByteRange, idx: int)
    requires
        0 <= idx <= s.len(),
        forall|k: int| 0 <= k < idx ==> (#[trigger] s[k]).start <= r.start,
        idx < s.len() ==> s[idx].start > r.start,
    ensures
        insert_by_start(s, r) == s.insert(idx, r),
    decreases idx,
{
    if idx == 0 {
        assert(insert_by_start(s, r) =~= s.insert(0, r));
    } else {
        lemma_insert_by_start_at(s.skip(1), r, idx - 1);
        assert(seq![s[0]] + s.skip(1).insert(idx - 1, r) =~= s.insert(idx, r));
    }
}

/// Sorts ranges in ascending order of their starting offset.
fn sort_ranges(rs: &Vec<ByteRange>) -> (out: Vec<ByteRange>)
    ensures
        out@ == sort_by_start(rs@),
{
    let mut out: Vec<ByteRange> = Vec::new();
    let mut i: usize = 0;
    while i < rs.len()
        invariant
            i <= rs@.len(),
            out@ == sort_by_start(rs@.take(i as int)),
        decreases rs@.len() - i,
    {
        let r = rs[i];
        let mut idx: usize = 0;
        while idx < out.len() && out[idx].start <= r.start
            invariant
                idx <= out@.len(),
                forall|k: int| 0 <= k < idx ==> (#[trigger] out@[k]).start <= r.start,
            decreases out@.len() - idx,
        {
            idx = idx + 1;
        }
        let ghost prev = out@;
        out.insert(idx, r);
        proof {
            lemma_insert_by_start_at(prev, r, idx as int);
            assert(rs@.take(i + 1).drop_last() =~= rs@.take(i as int));
            assert(rs@.take(i + 1).last() == rs@[i as int]);
        }
        i = i + 1;
    }
    proof {
        assert(rs@.take(rs@.len() as int) =~= rs@);
    }
    out
}

/// Merges overlapping or touching neighbours of a sorted range list.
fn merge_sorted(rs: &Vec<ByteRange>) -> (out: Vec<ByteRange>)
    ensures
        out@ == merge_ranges(rs@),
{
    if rs.len() == 0 {
        let out: Vec<ByteRange> = Vec::new();
        proof {
            assert(out@ =~= merge_ranges(rs@));
        }
        return out;
    }
    let mut done: Vec<ByteRange> = Vec::new();
    let mut cur: ByteRange = rs[0];
    let mut i: usize = 1;
    proof {
        assert(seq![cur] + rs@.skip(1) =~= rs@);
    }
    while i < rs.len()
        invariant
            1 <= i <= rs@.len(),
            merge_ranges(rs@) == done@ + merge_ranges(seq![cur] + rs@.skip(i as int)),
        decreases rs@.len() - i,
    {
        let nxt = rs[i];
        let ghost t = seq![cur] + rs@.skip(i as int);
        proof {
            assert(t.len() >= 2);
            assert(t[0] == cur && t[1] == rs@[i as int]);
        }
        if nxt.start == 0 || nxt.start - 1 <= cur.end {
            let merged = ByteRange {
                start: cur.start,
                end: if cur.end >= nxt.end {
                    cur.end
                } else {
                    nxt.end
                },
            };
            proof {
                assert(t[1].start <= t[0].end + 1);
                assert(seq![merged] + t.skip(2) =~= seq![merged] + rs@.skip(i + 1));
            }
            cur = merged;
        } else {
            proof {
                assert(!(t[1].start <= t[0].end + 1));
                assert(t.skip(1) =~= rs@.skip(i as int));
                assert(rs@.skip(i as int) =~= seq![nxt] + rs@.skip(i + 1));
                assert((done@ + seq![cur]) + merge_ranges(seq![nxt] + rs@.skip(i + 1)) =~= done@
                    + (seq![cur] + merge_ranges(t.skip(1))));
            }
            done.push(cur);
            cur = nxt;
        }
        i = i + 1;
    }
    proof {
        assert(rs@.skip(rs@.len() as int) =~= Seq::<ByteRange>::empty());
        assert((seq![cur] + rs@.skip(rs@.len() as int)) =~= seq![cur]);
        assert(merge_ranges(seq![cur]) == seq![cur]);
    }
    done.push(cur);
    proof {
        assert(done@ =~= merge_ranges(rs@));
    }
    done
}

/// Every range a token resolves to is non-empty.
proof fn lemma_resolve_token_nonempty(tok: Seq<char>, count: u64)
    ensures
        resolve_token(tok, count) matches Some(r) ==> r.start <= r.end,
{
}

/// A resolved token list has one range per token, each non-empty.
proof fn lemma_resolve_tokens_shape(toks: Seq<Seq<char>>, count: u64)
    ensures
        resolve_tokens(toks, count) matches Some(rs) ==> rs.len() == toks.len() && forall|i: int|
            0 <= i < rs.len() ==> (#[trigger] rs[i]).start <= rs[i].end,
    decreases toks.len(),
{
    if toks.len() > 0 {
        lemma_resolve_tokens_shape(toks.drop_last(), count);
        lemma_resolve_token_nonempty(toks.last(), count);
    }
}

/// Inserting into a sorted list keeps it sorted and keeps every
/// element non-empty.
proof fn lemma_insert_by_start_props(s: Seq<ByteRange>, r: ByteRange)
    requires
        sorted_by_start(s),
    ensures
        sorted_by_start(insert_by_start(s, r)),
        insert_by_start(s, r).len() == s.len() + 1,
        (forall|i: int| 0 <= i < s.len() ==> (#[trigger] s[i]).start <= s[i].end) && r.start
            <= r.end ==> forall|i: int|
            0 <= i < insert_by_start(s, r).len() ==> (#[trigger] insert_by_start(s, r)[i]).start
                <= insert_by_start(s, r)[i].end,
    decreases s.len(),
{
    if s.len() > 0 && s[0].start <= r.start {
        assert(sorted_by_start(s.skip(1)));
        lemma_insert_by_start_props(s.skip(1), r);
        let out = seq![s[0]] + insert_by_start(s.skip(1), r);
        assert forall|i: int, j: int| 0 <= i < j < out.len() implies out[i].start
            <= out[j].start by {
            if i > 0 {
                assert(out[i] == insert_by_start(s.skip(1), r)[i - 1]);
                assert(out[j] == insert_by_start(s.skip(1), r)[j - 1]);
            } else {
                let inner = insert_by_start(s.skip(1), r);
                assert(out[j] == inner[j - 1]);
                if inner[j - 1] != r {
                    assert(exists|k: int| 0 <= k < s.skip(1).len() && s.skip(1)[k] == inner[j - 1]
                        && s.skip(1)[k].start == inner[j - 1].start) by {
                        lemma_insert_members(s.skip(1), r, j - 1);
                    }
                }
            }
        }
    }
}

/// Each element of an insertion is the inserted range or an element
/// the list already held.
proof fn lemma_insert_members(s: Seq<ByteRange>, r: ByteRange, i: int)
    requires
        0 <= i < insert_by_start(s, r).len(),
    ensures
        insert_by_start(s, r)[i] == r || exists|k: int|
            0 <= k < s.len() && s[k] == insert_by_start(s, r)[i] && (#[trigger] s[k]).start
                == insert_by_start(s, r)[i].start,
    decreases s.len(),
{
    if s.len() > 0 && s[0].start <= r.start {
        if i > 0 {
            lemma_insert_members(s.skip(1), r, i - 1);
            let inner = insert_by_start(s.skip(1), r);
            if inner[i - 1] != r {
                let k = choose|k: int|
                    0 <= k < s.skip(1).len() && s.skip(1)[k] == inner[i - 1] && (#[trigger] s.skip(
                        1,
                    )[k]).start == inner[i - 1].start;
                assert(s[k + 1] == inner[i - 1]);
            }
        }
    }
}

/// Sorting yields a sorted list of the same length whose elements all
/// stay non-empty when the input's were.
proof fn lemma_sort_props(rs: Seq<ByteRange>)
    ensures
        sorted_by_start(sort_by_start(rs)),
        sort_by_start(rs).len() == rs.len(),
        (forall|i: int| 0 <= i < rs.len() ==> (#[trigger] rs[i]).start <= rs[i].end)
            ==> forall|i: int|
            0 <= i < sort_by_start(rs).len() ==> (#[trigger] sort_by_start(rs)[i]).start
                <= sort_by_start(rs)[i].end,
    decreases rs.len(),
{
    if rs.len() > 0 {
        lemma_sort_props(rs.drop_last());
        lemma_insert_by_start_props(sort_by_start(rs.drop_last()), rs.last());
    }
}

/// Merging a sorted list of non-empty ranges yields a normalized list
/// that keeps the first range's start and stays non-empty.
#[verifier::rlimit(60)]
proof fn lemma_merge_props(rs: Seq<ByteRange>)
    requires
        sorted_by_start(rs),
        forall|i: int| 0 <= i < rs.len() ==> (#[trigger] rs[i]).start <= rs[i].end,
    ensures
        wf_ranges(merge_ranges(rs)),
        merge_ranges(rs).len() >= 1 <==> rs.len() >= 1,
        rs.len() >= 1 ==> merge_ranges(rs)[0].start == rs[0].start,
    decreases rs.len(),
{
    if rs.len() <= 1 {
    } else if rs[1].start <= rs[0].end + 1 {
        let m = ByteRange { start: rs[0].start, end: max_u64(rs[0].end, rs[1].end) };
        let t = seq![m] + rs.skip(2);
        assert forall|i: int, j: int| 0 <= i < j < t.len() implies t[i].start <= t[j].start by {
            if i > 0 {
                assert(t[i] == rs[i + 1]);
                assert(t[j] == rs[j + 1]);
            } else {
                assert(t[j] == rs[j + 1]);
            }
        }
        assert forall|i: int| 0 <= i < t.len() implies (#[trigger] t[i]).start <= t[i].end by {
            if i > 0 {
                assert(t[i] == rs[i + 1]);
            }
        }
        lemma_merge_props(t);
    } else {
        let tail = rs.skip(1);
        assert forall|i: int, j: int| 0 <= i < j < tail.len() implies tail[i].start
            <= tail[j].start by {
            assert(tail[i] == rs[i + 1] && tail[j] == rs[j + 1]);
        }
        assert forall|i: int| 0 <= i < tail.len() implies (#[trigger] tail[i]).start
            <= tail[i].end by {
            assert(tail[i] == rs[i + 1]);
        }
        lemma_merge_props(tail);
        let out = seq![rs[0]] + merge_ranges(tail);
        let mt = merge_ranges(tail);
        assert forall|i: int| 0 <= i < out.len() implies (#[trigger] out[i]).start
            <= out[i].end by {
            if i > 0 {
                assert(out[i] == mt[i - 1]);
            }
        }
        assert forall|i: int| 0 <= i < out.len() - 1 implies (#[trigger] out[i]).end + 1 < out[i
            + 1].start by {
            if i > 0 {
                assert(out[i] == mt[i - 1] && out[i + 1] == mt[i]);
            } else {
                assert(out[1] == mt[0]);
                assert(mt[0].start == rs[1].start);
            }
        }
    }
}

/// A header's resolved ranges are always normalized: non-empty, sorted
/// ascending by start, with no two ranges overlapping or touching.
pub proof fn lemma_parse_normalized(s: Seq<char>, count: u64)
    ensures
        spec_parse(s, count) matches Some(m) ==> wf_ranges(m.0) && m.0.len() >= 1,
{
    if spec_parse(s, count) is Some {
        let parts = split_trim(s, '=');
        let params = split_trim(parts[1], '/');
        let toks = split_trim(params[0], ',');
        let rs = resolve_tokens(toks, count)->Some_0;
        crate::text::lemma_split_len(params[0], ',');
        lemma_resolve_tokens_shape(toks, count);
        lemma_sort_props(rs);
        lemma_merge_props(sort_by_start(rs));
    }
}

/// Parses a range header value against a resource of `bytes_count`
/// bytes, yielding the normalized ranges and the optional total-length
/// tag, or nothing when any part of the header is malformed.
pub fn parse(range_value: &str, bytes_count: u64) -> (r: Option<HttpRange>)
    ensures
        (match r {
            Some(hr) => {
                &&& spec_parse(range_value@, bytes_count) == Some(hr@)
                &&& wf_ranges(hr.ranges@)
                &&& hr.ranges@.len() >= 1
            },
            None => spec_parse(range_value@, bytes_count) is None,
        }),
{
    let chars = chars_of(range_value);
    if chars.len() == 0 {
        return None;
    }
    let parts = split_trim_chars(&chars, '=');
    proof {
        crate::text::lemma_split_len(chars@, '=');
        assert(views_of(parts@).len() == parts@.len());
        assert(split_trim(chars@, '=').len() == spec_split(chars@, '=').len());
        assert(forall|i: int|
            0 <= i < parts@.len() ==> views_of(parts@)[i] == (#[trigger] parts@[i])@);
    }
    if !is_unit_bytes(&parts[0]) {
        return None;
    }
    if parts.len() != 2 {
        return None;
    }
    let params = split_trim_chars(&parts[1], '/');
    proof {
        crate::text::lemma_split_len(parts@[1]@, '/');
        assert(views_of(params@).len() == params@.len());
        assert(split_trim(parts@[1]@, '/').len() == spec_split(parts@[1]@, '/').len());
        assert(forall|i: int|
            0 <= i < params@.len() ==> views_of(params@)[i] == (#[trigger] params@[i])@);
    }
    if params.len() > 2 {
        return None;
    }
    let tag = if params.len() == 2 {
        parse_tag_token(&params[1])
    } else {
        proof {
            assert(spec_parse_tag(Seq::<char>::empty()) == Some(None::<CompleteLength>));
        }
        Some(None)
    };
    let tag = match tag {
        Some(t) => t,
        None => {
            return None;
        },
    };
    let toks = split_trim_chars(&params[0], ',');
    let resolved = match resolve_all(&toks, bytes_count) {
        Some(rs) => rs,
        None => {
            return None;
        },
    };
    let sorted = sort_ranges(&resolved);
    let merged = merge_sorted(&sorted);
    proof {
        lemma_parse_normalized(range_value@, bytes_count);
    }
    Some(HttpRange { ranges: merged, complete_length: tag })
}

/// Reports whether any of the resolved ranges can be served from a
/// resource of `content_length` bytes.
pub fn is_range_satisfiable(http_range: &HttpRange, content_length: u64) -> (r: bool)
    ensures
        r == exists|i: int|
            0 <= i < http_range.ranges@.len() && (#[trigger] http_range.ranges@[i]).satisfiable(
                content_length,
            ),
{
    let mut i: usize = 0;
    while i < http_range.ranges.len()
        invariant
            i <= http_range.ranges@.len(),
            forall|k: int|
                0 <= k < i ==> !(#[trigger] http_range.ranges@[k]).satisfiable(content_length),
        decreases http_range.ranges@.len() - i,
    {
        let r = http_range.ranges[i];
        if r.start <= r.end && r.end < content_length {
            return true;
        }
        i = i + 1;
    }
    false
}

/// The canonical text of one resolved range: `start-end` in decimal.
pub open spec fn range_token(r: ByteRange) -> Seq<char> {
    dec_rep(r.start as nat) + seq!['-'] + dec_rep(r.end as nat)
}

/// The canonical text of the total-length tag, empty when there is none.
pub open spec fn tag_suffix(t: Option<CompleteLength>) -> Seq<char> {
    match t {
        None => Seq::<char>::empty(),
        Some(CompleteLength::Unknown) => seq!['/', '*'],
        Some(CompleteLength::Representation(n)) => seq!['/'] + dec_rep(n as nat),
    }
}

/// The canonical header text of a parsed range: the unit, `=`, the
/// comma-separated range tokens, and the tag suffix.
pub open spec fn canonical_header(m: (Seq<ByteRange>, Option<CompleteLength>)) -> Seq<char> {
    unit_chars() + seq!['='] + spec_join(m.0.map_values(|r: ByteRange| range_token(r)), ',')
        + tag_suffix(m.1)
}

impl HttpRange {
    /// Renders the parsed range back into its canonical header text.
    pub fn to_header(&self) -> (s: String)
        ensures
            s@ == canonical_header(self@),
    {
        let ghost toks = self.ranges@.map_values(|r: ByteRange| range_token(r));
        let mut s = String::new();
        s.append("bytes=");
        proof {
            reveal_strlit("bytes=");
            assert("bytes="@ =~= unit_chars() + seq!['=']);
        }
        let ghost head = unit_chars() + seq!['='];
        let mut i: usize = 0;
        while i < self.ranges.len()
            invariant
                i <= self.ranges@.len(),
                toks == self.ranges@.map_values(|r: ByteRange| range_token(r)),
                head == unit_chars() + seq!['='],
                i == 0 ==> s@ == head,
                i > 0 ==> s@ == head + spec_join(toks.take(i as int), ','),
            decreases self.ranges@.len() - i,
        {
            let ghost pre = s@;
            if i > 0 {
                s.append(",");
                proof {
                    reveal_strlit(",");
                    assert(","@ =~= seq![',']);
                }
            }
            let r = self.ranges[i];
            append_u64(&mut s, r.start);
            s.append("-");
            proof {
                reveal_strlit("-");
                assert("-"@ =~= seq!['-']);
            }
            append_u64(&mut s, r.end);
            proof {
                assert(toks[i as int] == range_token(self.ranges@[i as int]));
                if i == 0 {
                    assert(toks.take(1) =~= seq![toks[0]]);
                    assert(spec_join(toks.take(1), ',') == toks[0]);
                    assert(s@ =~= head + spec_join(toks.take(1), ','));
                } else {
                    assert(toks.take(i + 1).drop_last() =~= toks.take(i as int));
                    assert(toks.take(i + 1).last() == toks[i as int]);
                    assert(spec_join(toks.take(i + 1), ',') == spec_join(
                        toks.take(i as int),
                        ',',
                    ).push(',') + toks[i as int]);
                    assert(s@ =~= head + spec_join(toks.take(i + 1), ','));
                }
            }
            i = i + 1;
        }
        proof {
            assert(toks.take(toks.len() as int) =~= toks);
            if self.ranges@.len() == 0 {
                assert(spec_join(toks, ',') =~= Seq::<char>::empty());
                assert(s@ =~= head + spec_join(toks, ','));
            }
        }
        match &self.complete_length {
            None => {
                proof {
                    assert(s@ =~= canonical_header(self@));
                }
            },
            Some(CompleteLength::Unknown) => {
                s.append("/*");
                proof {
                    reveal_strlit("/*");
                    assert("/*"@ =~= seq!['/', '*']);
                    assert(s@ =~= canonical_header(self@));
                }
            },
            Some(CompleteLength::Representation(n)) => {
                s.append("/");
                proof {
                    reveal_strlit("/");
                    assert("/"@ =~= seq!['/']);
                }
                append_u64(&mut s, *n);
                proof {
                    assert(s@ =~= canonical_header(self@));
                }
            },
        }
        s
    }
}

/// The canonical text of a range is digits around a single dash, free
/// of separators and whitespace.
proof fn lemma_range_token_free(r: ByteRange)
    ensures
        !range_token(r).contains('='),
        !range_token(r).contains('/'),
        !range_token(r).contains(','),
        forall|i: int| 0 <= i < range_token(r).len() ==> !is_ws(#[trigger] range_token(r)[i]),
{
    let a = dec_rep(r.start as nat);
    let b = dec_rep(r.end as nat);
    lemma_dec_rep_digits(r.start as nat);
    lemma_dec_rep_digits(r.end as nat);
    lemma_digits_free(a, '=');
    lemma_digits_free(b, '=');
    lemma_digits_free(a, '/');
    lemma_digits_free(b, '/');
    lemma_digits_free(a, ',');
    lemma_digits_free(b, ',');
    lemma_dash_sandwich_free(a, b, '=');
    lemma_dash_sandwich_free(a, b, '/');
    lemma_dash_sandwich_free(a, b, ',');
    assert forall|i: int| 0 <= i < range_token(r).len() implies !is_ws(
        #[trigger] range_token(r)[i],
    ) by {
        let t = range_token(r);
        if i < a.len() {
            assert(t[i] == a[i]);
            assert(is_digit(a[i]));
        } else if i == a.len() {
            assert(t[i] == '-');
        } else {
            assert(t[i] == b[i - a.len() - 1]);
            assert(is_digit(b[i - a.len() - 1]));
        }
    }
}

/// Text of the shape `a-b` is free of every character that `a` and `b`
/// are free of, other than the dash.
proof fn lemma_dash_sandwich_free(a: Seq<char>, b: Seq<char>, c: char)
    requires
        c != '-',
        !a.contains(c),
        !b.contains(c),
    ensures
        !(a + seq!['-'] + b).contains(c),
{
    assert(!seq!['-'].contains(c)) by {
        if seq!['-'].contains(c) {
            let i = choose|i: int| 0 <= i < 1 && seq!['-'][i] == c;
        }
    }
    lemma_concat_free(a, seq!['-'], c);
    lemma_concat_free(a + seq!['-'], b, c);
}

/// Resolving the canonical text of a non-empty range gives the range
/// back, whatever the resource length.
proof fn lemma_resolve_token_canonical(r: ByteRange, count: u64)
    requires
        r.start <= r.end,
    ensures
        resolve_token(range_token(r), count) == Some(r),
{
    let a = dec_rep(r.start as nat);
    let b = dec_rep(r.end as nat);
    lemma_dec_rep_digits(r.start as nat);
    lemma_dec_rep_digits(r.end as nat);
    lemma_digits_free(b, '-');
    assert(range_token(r) =~= a.push('-') + b);
    lemma_split_append(a, b, '-');
    lemma_digits_free(a, '-');
    lemma_split_no_sep(a, '-');
    assert(spec_split(range_token(r), '-') == seq![a].push(b));
    assert(seq![a].push(b) =~= seq![a, b]);
    lemma_digits_no_ws(a);
    lemma_digits_no_ws(b);
    lemma_trim_id(a);
    lemma_trim_id(b);
    assert(split_trim(range_token(r), '-') =~= seq![a, b]);
    lemma_dec_rep_roundtrip(r.start);
    lemma_dec_rep_roundtrip(r.end);
}

/// Resolving the canonical tokens of a list of non-empty ranges gives
/// the list back.
proof fn lemma_resolve_tokens_canonical(rs: Seq<ByteRange>, count: u64)
    requires
        forall|i: int| 0 <= i < rs.len() ==> (#[trigger] rs[i]).start <= rs[i].end,
    ensures
        resolve_tokens(rs.map_values(|r: ByteRange| range_token(r)), count) == Some(rs),
    decreases rs.len(),
{
    let toks = rs.map_values(|r: ByteRange| range_token(r));
    if rs.len() == 0 {
        assert(rs =~= Seq::<ByteRange>::empty());
    } else {
        let dl = rs.drop_last();
        assert(forall|i: int| 0 <= i < dl.len() ==> (#[trigger] dl[i]).start <= dl[i].end);
        lemma_resolve_tokens_canonical(dl, count);
        lemma_resolve_token_canonical(rs.last(), count);
        assert(toks.drop_last() =~= dl.map_values(|r: ByteRange| range_token(r)));
        assert(toks.last() == range_token(rs.last()));
        assert(rs.drop_last().push(rs.last()) =~= rs);
    }
}

/// Appending a range that starts last lands at the end of the list.
proof fn lemma_insert_by_start_append(s: Seq<ByteRange>, r: ByteRange)
    requires
        forall|k: int| 0 <= k < s.len() ==> (#[trigger] s[k]).start <= r.start,
    ensures
        insert_by_start(s, r) == s.push(r),
    decreases s.len(),
{
    if s.len() == 0 {
        assert(insert_by_start(s, r) =~= s.push(r));
    } else {
        assert(forall|k: int|
            0 <= k < s.skip(1).len() ==> (#[trigger] s.skip(1)[k]).start <= r.start);
        lemma_insert_by_start_append(s.skip(1), r);
        assert(seq![s[0]] + s.skip(1).push(r) =~= s.push(r));
    }
}

/// Sorting a sorted list changes nothing.
proof fn lemma_sort_identity(rs: Seq<ByteRange>)
    requires
        sorted_by_start(rs),
    ensures
        sort_by_start(rs) == rs,
    decreases rs.len(),
{
    if rs.len() > 0 {
        let dl = rs.drop_last();
        assert(sorted_by_start(dl));
        lemma_sort_identity(dl);
        lemma_insert_by_start_append(dl, rs.last());
        assert(dl.push(rs.last()) =~= rs);
    }
}

/// Merging a normalized list changes nothing: no two ranges overlap or
/// touch, so the sweep keeps every one.
proof fn lemma_merge_identity(rs: Seq<ByteRange>)
    requires
        wf_ranges(rs),
    ensures
        merge_ranges(rs) == rs,
    decreases rs.len(),
{
    if rs.len() > 1 {
        assert(rs[0].end + 1 < rs[1].start);
        let tail = rs.skip(1);
        assert(wf_ranges(tail)) by {
            assert(forall|i: int|
                0 <= i < tail.len() ==> (#[trigger] tail[i]) == rs[i + 1]);
        }
        lemma_merge_identity(tail);
        assert(seq![rs[0]] + tail =~= rs);
    }
}

/// Parsing the canonical header text of a normalized range list and
/// tag gives exactly that list and tag back, against any resource
/// length: resolving is idempotent through the canonical text.
#[verifier::rlimit(100)]
pub proof fn lemma_canonical_roundtrip(
    m: (Seq<ByteRange>, Option<CompleteLength>),
    count: u64,
)
    requires
        wf_ranges(m.0),
        m.0.len() >= 1,
    ensures
        spec_parse(canonical_header(m), count) == Some(m),
{
    let rs = m.0;
    let tag = m.1;
    let toks = rs.map_values(|r: ByteRange| range_token(r));
    let body = spec_join(toks, ',');
    let suffix = tag_suffix(tag);
    let s = canonical_header(m);
    assert(s == unit_chars() + seq!['='] + body + suffix);
    assert(s.len() > 0);

    assert(forall|i: int| 0 <= i < toks.len() ==> !(#[trigger] toks[i]).contains('=')) by {
        assert forall|i: int| 0 <= i < toks.len() implies !(#[trigger] toks[i]).contains(
            '=',
        ) by {
            lemma_range_token_free(rs[i]);
        }
    }
    assert(forall|i: int| 0 <= i < toks.len() ==> !(#[trigger] toks[i]).contains('/')) by {
        assert forall|i: int| 0 <= i < toks.len() implies !(#[trigger] toks[i]).contains(
            '/',
        ) by {
            lemma_range_token_free(rs[i]);
        }
    }
    assert(forall|i: int| 0 <= i < toks.len() ==> !(#[trigger] toks[i]).contains(',')) by {
        assert forall|i: int| 0 <= i < toks.len() implies !(#[trigger] toks[i]).contains(
            ',',
        ) by {
            lemma_range_token_free(rs[i]);
        }
    }
    lemma_join_free(toks, ',', '=');
    lemma_join_free(toks, ',', '/');
    assert(!body.contains('='));
    assert(!body.contains('/'));
    assert(forall|i: int| 0 <= i < body.len() ==> !is_ws(#[trigger] body[i])) by {
        lemma_join_no_ws(toks, rs);
    }

    // The suffix is free of `=` and whitespace.
    assert(!suffix.contains('=') && forall|i: int|
        0 <= i < suffix.len() ==> !is_ws(#[trigger] suffix[i])) by {
        match tag {
            None => {
                if suffix.contains('=') {
                    let i = choose|i: int| 0 <= i < suffix.len() && suffix[i] == '=';
                }
            },
            Some(CompleteLength::Unknown) => {
                if suffix.contains('=') {
                    let i = choose|i: int| 0 <= i < suffix.len() && suffix[i] == '=';
                }
            },
            Some(CompleteLength::Representation(n)) => {
                lemma_dec_rep_digits(n as nat);
                lemma_digits_free(dec_rep(n as nat), '=');
                lemma_digits_no_ws(dec_rep(n as nat));
                if suffix.contains('=') {
                    let i = choose|i: int| 0 <= i < suffix.len() && suffix[i] == '=';
                    assert(dec_rep(n as nat)[i - 1] == '=');
                    assert(dec_rep(n as nat).contains('='));
                }
                assert forall|i: int| 0 <= i < suffix.len() implies !is_ws(
                    #[trigger] suffix[i],
                ) by {
                    if i > 0 {
                        assert(suffix[i] == dec_rep(n as nat)[i - 1]);
                        assert(is_digit(dec_rep(n as nat)[i - 1]));
                    }
                }
            },
        }
    }

    // Level one: splitting on `=` separates the unit from the rest.
    let rest = body + suffix;
    lemma_concat_free(body, suffix, '=');
    assert(s =~= unit_chars().push('=') + rest);
    assert(!unit_chars().contains('=')) by {
        if unit_chars().contains('=') {
            let i = choose|i: int| 0 <= i < unit_chars().len() && unit_chars()[i] == '=';
        }
    }
    lemma_split_no_sep(unit_chars(), '=');
    lemma_split_append(unit_chars(), rest, '=');
    assert(spec_split(s, '=') == seq![unit_chars()].push(rest));
    assert(seq![unit_chars()].push(rest) =~= seq![unit_chars(), rest]);
    assert(forall|i: int| 0 <= i < unit_chars().len() ==> !is_ws(#[trigger] unit_chars()[i]))
        by {
        assert forall|i: int| 0 <= i < unit_chars().len() implies !is_ws(
            #[trigger] unit_chars()[i],
        ) by {
            assert(unit_chars()[i] == 'b' || unit_chars()[i] == 'y' || unit_chars()[i] == 't'
                || unit_chars()[i] == 'e' || unit_chars()[i] == 's');
        }
    }
    lemma_trim_id(unit_chars());
    assert(forall|i: int| 0 <= i < rest.len() ==> !is_ws(#[trigger] rest[i])) by {
        assert forall|i: int| 0 <= i < rest.len() implies !is_ws(#[trigger] rest[i]) by {
            if i < body.len() {
                assert(rest[i] == body[i]);
            } else {
                assert(rest[i] == suffix[i - body.len()]);
            }
        }
    }
    lemma_trim_id(rest);
    let parts = split_trim(s, '=');
    assert(parts =~= seq![unit_chars(), rest]);

    // Level two: splitting the rest on `/` separates the ranges from
    // the tag text.
    let params = split_trim(rest, '/');
    let tag_tok: Seq<char> = if params.len() == 2 {
        params[1]
    } else {
        Seq::<char>::empty()
    };
    match tag {
        None => {
            assert(rest =~= body);
            lemma_split_no_sep(body, '/');
            lemma_trim_id(body);
            assert(params =~= seq![body]);
            assert(spec_parse_tag(tag_tok) == Some(None::<CompleteLength>));
        },
        Some(CompleteLength::Unknown) => {
            assert(rest =~= body.push('/') + seq!['*']);
            assert(!seq!['*'].contains('/')) by {
                if seq!['*'].contains('/') {
                    let i = choose|i: int| 0 <= i < 1 && seq!['*'][i] == '/';
                }
            }
            lemma_split_no_sep(body, '/');
            lemma_split_append(body, seq!['*'], '/');
            lemma_trim_id(body);
            assert(!is_ws('*'));
            lemma_trim_id(seq!['*']);
            assert(params =~= seq![body, seq!['*']]);
            assert(spec_parse_tag(seq!['*']) == Some(Some(CompleteLength::Unknown)));
        },
        Some(CompleteLength::Representation(n)) => {
            let d = dec_rep(n as nat);
            lemma_dec_rep_digits(n as nat);
            lemma_digits_free(d, '/');
            assert(rest =~= body.push('/') + d);
            lemma_split_no_sep(body, '/');
            lemma_split_append(body, d, '/');
            lemma_trim_id(body);
            lemma_digits_no_ws(d);
            lemma_trim_id(d);
            assert(params =~= seq![body, d]);
            assert(d != seq!['*']) by {
                if d =~= seq!['*'] {
                    assert(is_digit(d[0]));
                }
            }
            lemma_dec_rep_roundtrip(n);
            assert(spec_parse_tag(d) == Some(Some(CompleteLength::Representation(n))));
        },
    }

    // Level three: splitting the range text on `,` recovers the tokens.
    lemma_join_split(toks, ',');
    assert(forall|i: int| 0 <= i < toks.len() ==> forall|k: int|
        0 <= k < (#[trigger] toks[i]).len() ==> !is_ws(#[trigger] toks[i][k])) by {
        assert forall|i: int| 0 <= i < toks.len() implies forall|k: int|
            0 <= k < (#[trigger] toks[i]).len() ==> !is_ws(#[trigger] toks[i][k]) by {
            lemma_range_token_free(rs[i]);
        }
    }
    assert(split_trim(body, ',') =~= toks) by {
        assert(spec_split(body, ',') == toks);
        assert forall|i: int| 0 <= i < toks.len() implies spec_trim(#[trigger] toks[i])
            == toks[i] by {
            lemma_trim_id(toks[i]);
        }
    }

    // Level four: resolving the tokens and normalizing again changes
    // nothing.
    lemma_resolve_tokens_canonical(rs, count);
    lemma_wf_sorted(rs);
    lemma_sort_identity(rs);
    lemma_merge_identity(rs);
}

/// Resolution is idempotent: whatever a header resolved to, rendering
/// the result into its canonical text and resolving that text again —
/// against any resource length — yields the same result.
pub proof fn lemma_resolve_idempotent(s: Seq<char>, count: u64, count2: u64)
    ensures
        spec_parse(s, count) matches Some(m) ==> spec_parse(canonical_header(m), count2) == Some(
            m,
        ),
{
    match spec_parse(s, count) {
        Some(m) => {
            lemma_parse_normalized(s, count);
            lemma_canonical_roundtrip(m, count2);
        },
        None => {},
    }
}

/// A normalized range list is sorted.
proof fn lemma_wf_sorted(rs: Seq<ByteRange>)
    requires
        wf_ranges(rs),
    ensures
        sorted_by_start(rs),
{
    assert forall|i: int, j: int| 0 <= i < j < rs.len() implies rs[i].start <= rs[j].start by {
        lemma_wf_ends_grow(rs, i, j - 1);
        assert(rs[j - 1].end + 1 < rs[j].start);
    }
}

/// The canonical range text has no whitespace.
proof fn lemma_join_no_ws(toks: Seq<Seq<char>>, rs: Seq<ByteRange>)
    requires
        toks == rs.map_values(|r: ByteRange| range_token(r)),
    ensures
        forall|i: int|
            0 <= i < spec_join(toks, ',').len() ==> !is_ws(#[trigger] spec_join(toks, ',')[i]),
    decreases toks.len(),
{
    if toks.len() == 0 {
    } else if toks.len() == 1 {
        assert(spec_join(toks, ',') == toks[0]);
        lemma_range_token_free(rs[0]);
    } else {
        let dl = toks.drop_last();
        assert(dl =~= rs.drop_last().map_values(|r: ByteRange| range_token(r)));
        lemma_join_no_ws(dl, rs.drop_last());
        lemma_range_token_free(rs.last());
        let j = spec_join(toks, ',');
        let jl = spec_join(dl, ',');
        assert(toks.last() == range_token(rs.last())) by {
            assert(rs.drop_last().len() == rs.len() - 1);
        }
        assert forall|i: int| 0 <= i < j.len() implies !is_ws(#[trigger] j[i]) by {
            assert(j == jl.push(',') + toks.last());
            if i < jl.len() {
                assert(j[i] == jl[i]);
            } else if i == jl.len() {
                assert(j[i] == ',');
            } else {
                assert(j[i] == toks.last()[i - jl.len() - 1]);
            }
        }
    }
}

/// In a normalized range list, if any range can be served then the
/// first one can: ends grow strictly along the list, so the first
/// range ends earliest.
pub proof fn lemma_first_range_satisfiable(rs: Seq<ByteRange>, total: u64)
    requires
        wf_ranges(rs),
        exists|i: int| 0 <= i < rs.len() && (#[trigger] rs[i]).satisfiable(total),
    ensures
        rs.len() >= 1,
        rs[0].satisfiable(total),
{
    let i = choose|i: int| 0 <= i < rs.len() && (#[trigger] rs[i]).satisfiable(total);
    lemma_wf_ends_grow(rs, 0, i);
}

/// Ends grow along a normalized range list.
proof fn lemma_wf_ends_grow(rs: Seq<ByteRange>, i: int, j: int)
    requires
        wf_ranges(rs),
        0 <= i <= j < rs.len(),
    ensures
        rs[i].end <= rs[j].end,
    decreases j - i,
{
    if i < j {
        lemma_wf_ends_grow(rs, i + 1, j);
    }
}

} // verus!
