//! Splits one SQL body into an ordered sequence of blocks: literal text,
//! and conditional fragments written between `--~{` and `--~}` markers.
//!
//! The split never fails: an opening marker with no closing marker is not
//! a block and stays embedded in the literal text around it.

use vstd::prelude::*;

use crate::chars::find_newline;
use crate::chars::is_space;
use crate::chars::is_space_char;
use crate::chars::lemma_end_non_space_is;
use crate::chars::lemma_find_newline_is;
use crate::chars::lemma_first_non_space_is;
use crate::chars::string_of;
use crate::chars::trim_spec;

verus! {

/// The spec-level image of a `SqlBlock`: the same shape over sequences of
/// characters.
pub enum SpecSqlBlock {
    Literal(Seq<char>),
    Conditional(Seq<char>, Seq<char>),
}

/// One piece of an SQL body: literal text that is always part of the
/// statement, or a conditional fragment together with the identifier that
/// names its condition. Both strings are trimmed. Nothing is assumed of
/// identifiers: two conditional blocks may carry the same one, and each
/// is kept, in source order.
#[derive(Debug)]
pub enum SqlBlock {
    Literal(String),
    Conditional(String, String),
}

impl View for SqlBlock {
    type V = SpecSqlBlock;

    open spec fn view(&self) -> SpecSqlBlock {
        match self {
            SqlBlock::Literal(t) => SpecSqlBlock::Literal(t@),
            SqlBlock::Conditional(id, t) => SpecSqlBlock::Conditional(id@, t@),
        }
    }
}

impl PartialEq for SqlBlock {
    fn eq(&self, other: &SqlBlock) -> (r: bool) {
        match (self, other) {
            (SqlBlock::Literal(a), SqlBlock::Literal(b)) => *a == *b,
            (SqlBlock::Conditional(ia, ta), SqlBlock::Conditional(ib, tb)) => *ia == *ib && *ta
                == *tb,
            _ => false,
        }
    }
}

impl vstd::std_specs::cmp::PartialEqSpecImpl for SqlBlock {
    open spec fn obeys_eq_spec() -> bool {
        true
    }

    open spec fn eq_spec(&self, other: &SqlBlock) -> bool {
        self@ == other@
    }
}

/// The views of a sequence of blocks, in order.
pub open spec fn views_of(blocks: Seq<SqlBlock>) -> Seq<SpecSqlBlock> {
    blocks.map_values(|b: SqlBlock| b@)
}

/// The four characters that open a conditional block.
pub open spec fn open_marker() -> Seq<char> {
    seq!['-', '-', '~', '{']
}

/// The four characters that close a conditional block.
pub open spec fn close_marker() -> Seq<char> {
    seq!['-', '-', '~', '}']
}

/// A position is recognized as a marker position only at the very start of
/// the input or immediately after a newline.
pub open spec fn at_line_start(s: Seq<char>, pos: int) -> bool {
    pos == 0 || s[pos - 1] == '\n'
}

/// Whether `pat` occurs in `s` starting exactly at `start`.
pub open spec fn matches_at(s: Seq<char>, start: int, pat: Seq<char>) -> bool {
    &&& 0 <= start
    &&& start + pat.len() <= s.len()
    &&& s.subrange(start, start + pat.len()) == pat
}

/// The first position at or after `i` where a closing marker is recognized;
/// the input length when there is none.
pub open spec fn find_close(s: Seq<char>, i: int) -> int
    decreases s.len() - i,
{
    if i >= s.len() {
        s.len() as int
    } else if at_line_start(s, i) && matches_at(s, i, close_marker()) {
        i
    } else {
        find_close(s, i + 1)
    }
}

/// What reading one conditional block at an opening marker yields: the
/// trimmed identifier from the rest of the marker's line, the trimmed text
/// strictly between that line and the closing marker, and the position at
/// the end of the closing marker's line. `None` when the marker's line or
/// the block is unterminated.
pub open spec fn spec_parse_cond(s: Seq<char>, start: int) -> Option<(Seq<char>, Seq<char>, int)> {
    let idl = find_newline(s, start + 4);
    if idl >= s.len() {
        None
    } else {
        let id = trim_spec(s.subrange(start + 4, idl));
        let close = find_close(s, idl);
        if close >= s.len() {
            None
        } else {
            let body = trim_spec(s.subrange(idl, close));
            Some((id, body, find_newline(s, close + 4)))
        }
    }
}

/// The literal block that the span `[lit_start, i)` flushes to: its
/// trimmed text, or nothing when the trimmed span is empty.
pub open spec fn spec_flush(s: Seq<char>, lit_start: int, i: int) -> Seq<SpecSqlBlock> {
    if i > lit_start && trim_spec(s.subrange(lit_start, i)).len() > 0 {
        seq![SpecSqlBlock::Literal(trim_spec(s.subrange(lit_start, i)))]
    } else {
        Seq::empty()
    }
}

/// The block sequence that the scan yields from position `i` onward, with
/// pending literal text reaching back to `lit_start`. A trimmed-empty
/// literal span is suppressed; a conditional block is always emitted.
pub open spec fn spec_parse_blocks(s: Seq<char>, i: int, lit_start: int) -> Seq<SpecSqlBlock>
    decreases s.len() - i,
{
    if i >= s.len() {
        spec_flush(s, lit_start, s.len() as int)
    } else if at_line_start(s, i) && matches_at(s, i, open_marker()) {
        let flushed = spec_flush(s, lit_start, i);
        match spec_parse_cond(s, i) {
            Some((id, body, end)) => {
                let next = if end < i + 1 {
                    i + 1
                } else if end > s.len() {
                    s.len() as int
                } else {
                    end
                };
                flushed + seq![SpecSqlBlock::Conditional(id, body)] + spec_parse_blocks(
                    s,
                    next,
                    next,
                )
            },
            None => flushed + spec_parse_blocks(s, i + 1, lit_start),
        }
    } else {
        spec_parse_blocks(s, i + 1, lit_start)
    }
}

/// Whether `pos` is at the start of the input or right after a newline.
pub fn is_at_newline_or_start(input: &[char], pos: usize) -> (r: bool)
    requires
        pos <= input@.len(),
    ensures
        r == at_line_start(input@, pos as int),
{
    pos == 0 || input[pos - 1] == '\n'
}

/// Whether `pattern` occurs in `input` starting exactly at `start`.
pub fn matches_pattern(input: &[char], start: usize, pattern: &[char]) -> (r: bool)
    ensures
        r == matches_at(input@, start as int, pattern@),
{
    if start > input.len() || pattern.len() > input.len() - start {
        return false;
    }
    let mut j: usize = 0;
    while j < pattern.len()
        invariant
            start + pattern@.len() <= input@.len(),
            input@.len() <= usize::MAX,
            j <= pattern@.len(),
            forall|k: int| 0 <= k < j ==> input@[start + k] == pattern@[k],
        decreases pattern@.len() - j,
    {
        if input[start + j] != pattern[j] {
            proof {
                assert(input@.subrange(start as int, start + pattern@.len())[j as int] == input@[
                    start + j
                ]);
            }
            return false;
        }
        j = j + 1;
    }
    proof {
        assert(input@.subrange(start as int, start + pattern@.len()) =~= pattern@);
    }
    true
}

/// `chars` with leading and trailing white space removed; empty when the
/// whole slice is white space.
pub fn trim_slice(chars: &[char]) -> (r: &[char])
    ensures
        r@ == trim_spec(chars@),
{
    let mut start: usize = 0;
    while start < chars.len() && is_space_char(chars[start])
        invariant
            start <= chars@.len(),
            forall|j: int| 0 <= j < start ==> is_space(chars@[j]),
        decreases chars@.len() - start,
    {
        start = start + 1;
    }
    proof {
        lemma_first_non_space_is(chars@, start as int);
    }
    let mut end: usize = chars.len();
    while end > 0 && is_space_char(chars[end - 1])
        invariant
            end <= chars@.len(),
            forall|j: int| end <= j < chars@.len() ==> is_space(chars@[j]),
        decreases end,
    {
        end = end - 1;
    }
    proof {
        lemma_end_non_space_is(chars@, end as int);
    }
    if start >= end {
        let r = &chars[0..0];
        proof {
            assert(r@ =~= Seq::<char>::empty());
        }
        r
    } else {
        &chars[start..end]
    }
}

proof fn lemma_find_close_is(s: Seq<char>, from: int, i: int)
    requires
        0 <= from <= i <= s.len(),
        forall|j: int|
            from <= j < i ==> !(at_line_start(s, j) && matches_at(s, j, close_marker())),
        i < s.len() ==> at_line_start(s, i) && matches_at(s, i, close_marker()),
    ensures
        find_close(s, from) == i,
    decreases i - from,
{
    if from < i {
        lemma_find_close_is(s, from + 1, i);
    }
}

proof fn lemma_scan_literal(s: Seq<char>, i: int, m: int, ls: int)
    requires
        0 <= ls <= i <= m <= s.len(),
        forall|k: int| i <= k < m ==> !(at_line_start(s, k) && matches_at(s, k, open_marker())),
    ensures
        spec_parse_blocks(s, i, ls) == spec_parse_blocks(s, m, ls),
    decreases m - i,
{
    if i < m {
        lemma_scan_literal(s, i + 1, m, ls);
    }
}

/// A body in which no opening marker is recognized parses to exactly one
/// literal block, the whole input trimmed — or to no block at all when
/// the input trims to nothing.
pub proof fn lemma_no_markers_single_literal(s: Seq<char>)
    requires
        forall|k: int| 0 <= k < s.len() ==> !(at_line_start(s, k) && matches_at(s, k, open_marker())),
    ensures
        trim_spec(s).len() > 0 ==> spec_parse_blocks(s, 0, 0) == seq![
            SpecSqlBlock::Literal(trim_spec(s)),
        ],
        trim_spec(s).len() == 0 ==> spec_parse_blocks(s, 0, 0) == Seq::<SpecSqlBlock>::empty(),
{
    lemma_scan_literal(s, 0, s.len() as int, 0);
    assert(s.subrange(0, s.len() as int) =~= s);
}

fn close_pattern() -> (v: Vec<char>)
    ensures
        v@ == close_marker(),
{
    let mut v: Vec<char> = Vec::new();
    v.push('-');
    v.push('-');
    v.push('~');
    v.push('}');
    proof {
        assert(v@ =~= close_marker());
    }
    v
}

fn open_pattern() -> (v: Vec<char>)
    ensures
        v@ == open_marker(),
{
    let mut v: Vec<char> = Vec::new();
    v.push('-');
    v.push('-');
    v.push('~');
    v.push('{');
    proof {
        assert(v@ =~= open_marker());
    }
    v
}

/// Reads one conditional block whose opening marker stands at `start`:
/// the rest of that line, trimmed, is the condition identifier; the text
/// up to a recognized closing marker, trimmed, is the block body; the
/// returned position is where the closing marker's line ends. `None` when
/// the identifier line or the block itself is unterminated.
pub fn parse_conditional_block(input: &[char], start: usize) -> (r: Option<(String, String, usize)>)
    requires
        start + 4 <= input@.len(),
    ensures
        r is Some <==> spec_parse_cond(input@, start as int) is Some,
        r is Some ==> ({
            let (id, body, end) = r->0;
            let (sid, sbody, send) = spec_parse_cond(input@, start as int)->0;
            &&& id@ == sid
            &&& body@ == sbody
            &&& end as int == send
            &&& start < end <= input@.len()
        }),
{
    let n = input.len();
    let mut i: usize = start + 4;
    let id_start: usize = i;
    while i < input.len() && input[i] != '\n'
        invariant
            id_start <= i <= input@.len(),
            forall|j: int| id_start <= j < i ==> input@[j] != '\n',
        decreases input@.len() - i,
    {
        i = i + 1;
    }
    proof {
        lemma_find_newline_is(input@, id_start as int, i as int);
    }
    if i >= n {
        return None;
    }
    let condition_id: String = string_of(trim_slice(&input[id_start..i]));
    let content_start: usize = i;
    let close_pat = close_pattern();
    while i < input.len()
        invariant
            start + 4 == id_start,
            id_start <= content_start <= i <= input@.len(),
            content_start < input@.len(),
            input@.len() <= usize::MAX,
            close_pat@ == close_marker(),
            find_newline(input@, id_start as int) == content_start as int,
            condition_id@ == trim_spec(input@.subrange(id_start as int, content_start as int)),
            forall|j: int|
                content_start <= j < i ==> !(at_line_start(input@, j) && matches_at(
                    input@,
                    j,
                    close_marker(),
                )),
        decreases input@.len() - i,
    {
        if is_at_newline_or_start(input, i) && matches_pattern(input, i, close_pat.as_slice()) {
            proof {
                lemma_find_close_is(input@, content_start as int, i as int);
            }
            let content: String = string_of(trim_slice(&input[content_start..i]));
            let mut j: usize = i + 4;
            let ghost line_from: int = j as int;
            while j < input.len() && input[j] != '\n'
                invariant
                    line_from <= j <= input@.len(),
                    forall|k: int| line_from <= k < j ==> input@[k] != '\n',
                decreases input@.len() - j,
            {
                j = j + 1;
            }
            proof {
                lemma_find_newline_is(input@, line_from, j as int);
            }
            return Some((condition_id, content, j));
        }
        i = i + 1;
    }
    proof {
        lemma_find_close_is(input@, content_start as int, i as int);
    }
    None
}

/// Splits an SQL body into its ordered sequence of blocks: literal spans
/// between markers (trimmed, suppressed when empty) and conditional
/// blocks. The scan is total: an unterminated opening marker is ordinary
/// text.
pub fn parse_sql_blocks(input: &[char]) -> (result: Vec<SqlBlock>)
    ensures
        views_of(result@) == spec_parse_blocks(input@, 0, 0),
{
    let n = input.len();
    let mut result: Vec<SqlBlock> = Vec::new();
    let mut i: usize = 0;
    let mut literal_start: usize = 0;
    let open_pat = open_pattern();
    proof {
        assert(views_of(result@) + spec_parse_blocks(input@, 0, 0) =~= spec_parse_blocks(
            input@,
            0,
            0,
        ));
    }
    while i < input.len()
        invariant
            literal_start <= i <= input@.len(),
            input@.len() <= usize::MAX,
            open_pat@ == open_marker(),
            spec_parse_blocks(input@, 0, 0) == views_of(result@) + spec_parse_blocks(
                input@,
                i as int,
                literal_start as int,
            ),
        decreases input@.len() - i,
    {
        let ghost result_in: Seq<SqlBlock> = result@;
        let ghost i_in: int = i as int;
        let ghost lit_in: int = literal_start as int;
        if is_at_newline_or_start(input, i) && matches_pattern(input, i, open_pat.as_slice()) {
            if i > literal_start {
                let literal = trim_slice(&input[literal_start..i]);
                if literal.len() > 0 {
                    result.push(SqlBlock::Literal(string_of(literal)));
                }
            }
            match parse_conditional_block(input, i) {
                Some((condition_id, content, end_pos)) => {
                    result.push(SqlBlock::Conditional(condition_id, content));
                    proof {
                        assert(views_of(result@) =~= views_of(result_in) + spec_flush(
                            input@,
                            lit_in,
                            i_in,
                        ) + seq![result@.last()@]);
                        assert(views_of(result_in) + (spec_flush(input@, lit_in, i_in) + seq![
                            result@.last()@
                        ] + spec_parse_blocks(input@, end_pos as int, end_pos as int)) =~= views_of(
                            result@,
                        ) + spec_parse_blocks(input@, end_pos as int, end_pos as int));
                    }
                    i = end_pos;
                    literal_start = end_pos;
                },
                None => {
                    proof {
                        assert(views_of(result@) =~= views_of(result_in) + spec_flush(
                            input@,
                            lit_in,
                            i_in,
                        ));
                        assert(views_of(result_in) + (spec_flush(input@, lit_in, i_in)
                            + spec_parse_blocks(input@, i_in + 1, lit_in)) =~= views_of(result@)
                            + spec_parse_blocks(input@, i_in + 1, lit_in));
                    }
                    i = i + 1;
                },
            }
        } else {
            i = i + 1;
        }
    }
    if literal_start < n {
        let literal = trim_slice(&input[literal_start..n]);
        if literal.len() > 0 {
            let ghost result_in: Seq<SqlBlock> = result@;
            result.push(SqlBlock::Literal(string_of(literal)));
            proof {
                assert(views_of(result@) =~= views_of(result_in) + seq![result@.last()@]);
            }
        }
    }
    proof {
        assert(views_of(result@) + Seq::<SpecSqlBlock>::empty() =~= views_of(result@));
    }
    result
}

/// The shape of every block the parser yields: only trimmed text, and in
/// a literal block some text at all.
pub open spec fn block_trimmed(blk: SpecSqlBlock) -> bool {
    match blk {
        SpecSqlBlock::Literal(t) => trim_spec(t) == t && t.len() > 0,
        SpecSqlBlock::Conditional(id, b) => trim_spec(id) == id && trim_spec(b) == b,
    }
}

/// Whether every block of a sequence has the parsed shape.
pub open spec fn blocks_trimmed(bs: Seq<SpecSqlBlock>) -> bool {
    forall|k: int| 0 <= k < bs.len() ==> block_trimmed(#[trigger] bs[k])
}

proof fn lemma_parse_blocks_trimmed_from(s: Seq<char>, i: int, ls: int)
    ensures
        blocks_trimmed(spec_parse_blocks(s, i, ls)),
    decreases s.len() - i,
{
    if i >= s.len() {
        crate::chars::lemma_trim_idempotent(s.subrange(ls, s.len() as int));
    } else if at_line_start(s, i) && matches_at(s, i, open_marker()) {
        crate::chars::lemma_trim_idempotent(s.subrange(ls, i));
        match spec_parse_cond(s, i) {
            Some((id, body, end)) => {
                let idl = find_newline(s, i + 4);
                crate::chars::lemma_trim_idempotent(s.subrange(i + 4, idl));
                crate::chars::lemma_trim_idempotent(s.subrange(idl, find_close(s, idl)));
                let next = if end < i + 1 {
                    i + 1
                } else if end > s.len() {
                    s.len() as int
                } else {
                    end
                };
                lemma_parse_blocks_trimmed_from(s, next, next);
            },
            None => {
                lemma_parse_blocks_trimmed_from(s, i + 1, ls);
            },
        }
    } else {
        lemma_parse_blocks_trimmed_from(s, i + 1, ls);
    }
}

/// Every block the parser yields is already trimmed, and a literal block
/// is never empty — the invariant the `SqlBlock` data model promises.
pub proof fn lemma_parsed_blocks_trimmed(s: Seq<char>)
    ensures
        blocks_trimmed(spec_parse_blocks(s, 0, 0)),
{
    lemma_parse_blocks_trimmed_from(s, 0, 0);
}

/// A literal block that serialization writes back faithfully: trimmed,
/// non-empty, and with no line that opens a conditional block.
pub open spec fn wf_literal(t: Seq<char>) -> bool {
    &&& t.len() > 0
    &&& trim_spec(t) == t
    &&& forall|p: int| 0 <= p < t.len() && at_line_start(t, p) ==> !matches_at(t, p, open_marker())
}

/// A conditional block that serialization writes back faithfully: the
/// identifier trimmed and free of newlines, the body trimmed and with no
/// line that closes a block.
pub open spec fn wf_conditional(id: Seq<char>, b: Seq<char>) -> bool {
    &&& trim_spec(id) == id
    &&& forall|j: int| 0 <= j < id.len() ==> id[j] != '\n'
    &&& trim_spec(b) == b
    &&& forall|p: int| 0 <= p < b.len() && at_line_start(b, p) ==> !matches_at(b, p, close_marker())
}

/// Whether one block round-trips through serialization.
pub open spec fn wf_block(blk: SpecSqlBlock) -> bool {
    match blk {
        SpecSqlBlock::Literal(t) => wf_literal(t),
        SpecSqlBlock::Conditional(id, b) => wf_conditional(id, b),
    }
}

/// A block sequence that serialization writes back faithfully: every
/// block well formed, and no two literal blocks adjacent — the parse
/// would merge those into one.
pub open spec fn wf_blocks(bs: Seq<SpecSqlBlock>) -> bool {
    &&& forall|k: int| 0 <= k < bs.len() ==> wf_block(bs[k])
    &&& forall|k: int|
        0 <= k && k + 1 < bs.len() ==> !((#[trigger] bs[k]) is Literal && bs[k + 1] is Literal)
}

/// The text that writes one block back: a literal verbatim with a final
/// newline; a conditional between its markers, the identifier on the
/// opening marker's line.
pub open spec fn spec_serialize_block(blk: SpecSqlBlock) -> Seq<char> {
    match blk {
        SpecSqlBlock::Literal(t) => t + seq!['\n'],
        SpecSqlBlock::Conditional(id, b) => open_marker() + seq![' '] + id + seq!['\n'] + b + seq![
            '\n',
        ] + close_marker() + seq!['\n'],
    }
}

/// The text that writes the blocks from index `k` on back, in order.
pub open spec fn spec_serialize(bs: Seq<SpecSqlBlock>, k: int) -> Seq<char>
    decreases bs.len() - k,
{
    if k >= bs.len() {
        Seq::empty()
    } else {
        spec_serialize_block(bs[k]) + spec_serialize(bs, k + 1)
    }
}

proof fn lemma_trim_all_space(u: Seq<char>)
    requires
        forall|j: int| 0 <= j < u.len() ==> is_space(u[j]),
    ensures
        trim_spec(u).len() == 0,
{
    crate::chars::lemma_first_non_space_is(u, u.len() as int);
    crate::chars::lemma_end_non_space_is(u, 0);
}

proof fn lemma_parse_cond_serialized(s: Seq<char>, m0: int, id: Seq<char>, b: Seq<char>)
    requires
        0 <= m0,
        m0 + 12 + id.len() + b.len() <= s.len(),
        wf_conditional(id, b),
        s[m0] == '-',
        s[m0 + 1] == '-',
        s[m0 + 2] == '~',
        s[m0 + 3] == '{',
        s[m0 + 4] == ' ',
        forall|j: int| 0 <= j < id.len() ==> s[m0 + 5 + j] == id[j],
        s[m0 + 5 + id.len()] == '\n',
        forall|j: int| 0 <= j < b.len() ==> s[m0 + 6 + id.len() + j] == b[j],
        s[m0 + 6 + id.len() + b.len()] == '\n',
        s[m0 + 7 + id.len() + b.len()] == '-',
        s[m0 + 8 + id.len() + b.len()] == '-',
        s[m0 + 9 + id.len() + b.len()] == '~',
        s[m0 + 10 + id.len() + b.len()] == '}',
        s[m0 + 11 + id.len() + b.len()] == '\n',
    ensures
        spec_parse_cond(s, m0) == Some(
            (id, b, m0 + 11 + id.len() + b.len()),
        ),
{
    let nid = id.len() as int;
    let nb = b.len() as int;
    let idl = m0 + 5 + nid;
    let close0 = m0 + 7 + nid + nb;
    assert forall|j: int| m0 + 4 <= j < idl implies s[j] != '\n' by {
        if j > m0 + 4 {
            assert(s[j] == id[j - m0 - 5]);
        }
    }
    lemma_find_newline_is(s, m0 + 4, idl);
    assert(s.subrange(m0 + 4, idl) =~= seq![' '] + id + Seq::<char>::empty());
    crate::chars::lemma_trim_padded(seq![' '], id, Seq::empty());
    assert(trim_spec(s.subrange(m0 + 4, idl)) == id);
    assert forall|q: int|
        idl <= q < close0 implies !(at_line_start(s, q) && matches_at(
        s,
        q,
        close_marker(),
    )) by {
        if at_line_start(s, q) && matches_at(s, q, close_marker()) {
            assert(s.subrange(q, q + 4)[0] == s[q]);
            assert(s[q] == '-');
            if q == idl || q == idl + 1 + nb {
                assert(s[q] == '\n');
            } else {
                let p = q - idl - 1;
                assert(0 <= p < nb);
                assert(s[q] == b[p]);
                if q + 4 <= idl + 1 + nb {
                    assert(s.subrange(q, q + 4) =~= b.subrange(p, p + 4));
                    assert(matches_at(b, p, close_marker()));
                    if p == 0 {
                        assert(at_line_start(b, p));
                    } else {
                        assert(s[q - 1] == b[p - 1]);
                        assert(at_line_start(b, p));
                    }
                } else {
                    let x = idl + 1 + nb - q;
                    assert(1 <= x < 4);
                    assert(s.subrange(q, q + 4)[x] == s[idl + 1 + nb]);
                    assert(close_marker()[x] == '\n');
                }
            }
        }
    }
    assert(at_line_start(s, close0));
    assert(s.subrange(close0, close0 + 4) =~= close_marker());
    assert(matches_at(s, close0, close_marker()));
    lemma_find_close_is(s, idl, close0);
    assert(s.subrange(idl, close0) =~= seq!['\n'] + b + seq!['\n']);
    crate::chars::lemma_trim_padded(seq!['\n'], b, seq!['\n']);
    assert(trim_spec(s.subrange(idl, close0)) == b);
    lemma_find_newline_is(s, close0 + 4, close0 + 4);
}

proof fn lemma_cond_layout(id: Seq<char>, b: Seq<char>)
    ensures
        ({
            let ser = spec_serialize_block(SpecSqlBlock::Conditional(id, b));
            &&& ser.len() == 12 + id.len() + b.len()
            &&& ser[0] == '-'
            &&& ser[1] == '-'
            &&& ser[2] == '~'
            &&& ser[3] == '{'
            &&& ser[4] == ' '
            &&& forall|j: int| 0 <= j < id.len() ==> ser[5 + j] == id[j]
            &&& ser[5 + id.len() as int] == '\n'
            &&& forall|j: int| 0 <= j < b.len() ==> ser[6 + id.len() + j] == b[j]
            &&& ser[6 + id.len() + b.len() as int] == '\n'
            &&& ser[7 + id.len() + b.len() as int] == '-'
            &&& ser[8 + id.len() + b.len() as int] == '-'
            &&& ser[9 + id.len() + b.len() as int] == '~'
            &&& ser[10 + id.len() + b.len() as int] == '}'
            &&& ser[11 + id.len() + b.len() as int] == '\n'
        }),
{
    let nid = id.len() as int;
    let nb = b.len() as int;
    let p1 = open_marker() + seq![' '];
    let p2 = p1 + id;
    let p3 = p2 + seq!['\n'];
    let p4 = p3 + b;
    let p5 = p4 + seq!['\n'];
    let p6 = p5 + close_marker();
    let p7 = p6 + seq!['\n'];
    assert(spec_serialize_block(SpecSqlBlock::Conditional(id, b)) == p7);
    assert(p1.len() == 5 && p2.len() == 5 + nid && p3.len() == 6 + nid && p4.len() == 6 + nid + nb
        && p5.len() == 7 + nid + nb && p6.len() == 11 + nid + nb && p7.len() == 12 + nid + nb);
    assert forall|j: int| 0 <= j < nid implies p7[5 + j] == id[j] by {
        assert(p2[5 + j] == id[j]);
    }
    assert forall|j: int| 0 <= j < nb implies p7[6 + nid + j] == b[j] by {
        assert(p4[6 + nid + j] == b[j]);
    }
    assert(p7[7 + nid + nb] == close_marker()[0]);
    assert(p7[8 + nid + nb] == close_marker()[1]);
    assert(p7[9 + nid + nb] == close_marker()[2]);
    assert(p7[10 + nid + nb] == close_marker()[3]);
}

proof fn lemma_lit_layout(t: Seq<char>)
    ensures
        ({
            let ser = spec_serialize_block(SpecSqlBlock::Literal(t));
            &&& ser.len() == t.len() + 1
            &&& forall|j: int| 0 <= j < t.len() ==> ser[j] == t[j]
            &&& ser[t.len() as int] == '\n'
        }),
{
}

proof fn lemma_no_opener_over_literal(s: Seq<char>, i: int, t: Seq<char>)
    requires
        0 <= i,
        i + t.len() + 1 <= s.len(),
        wf_literal(t),
        forall|j: int| 0 <= j < t.len() ==> s[i + j] == t[j],
        s[i + t.len()] == '\n',
        at_line_start(s, i),
    ensures
        forall|q: int|
            i <= q < i + t.len() + 1 ==> !(at_line_start(s, q) && matches_at(s, q, open_marker())),
{
    let nt = t.len() as int;
    assert forall|q: int|
        i <= q < i + nt + 1 implies !(at_line_start(s, q) && matches_at(
        s,
        q,
        open_marker(),
    )) by {
        if at_line_start(s, q) && matches_at(s, q, open_marker()) {
            assert(s.subrange(q, q + 4)[0] == s[q]);
            assert(s[q] == '-');
            if q == i + nt {
                assert(s[q] == '\n');
            } else {
                let p = q - i;
                assert(0 <= p < nt);
                if q + 4 <= i + nt {
                    assert(s.subrange(q, q + 4) =~= t.subrange(p, p + 4));
                    assert(matches_at(t, p, open_marker()));
                    if p == 0 {
                        assert(at_line_start(t, p));
                    } else {
                        assert(s[q - 1] == t[p - 1]);
                        assert(at_line_start(t, p));
                    }
                } else {
                    let x = i + nt - q;
                    assert(1 <= x < 4);
                    assert(s.subrange(q, q + 4)[x] == s[i + nt]);
                    assert(open_marker()[x] == '\n');
                }
            }
        }
    }
}

#[verifier::rlimit(100)]
proof fn lemma_cond_chars_at(s: Seq<char>, pos: int, id: Seq<char>, b: Seq<char>)
    requires
        0 <= pos,
        pos + 12 + id.len() + b.len() <= s.len(),
        forall|q: int|
            0 <= q < 12 + id.len() + b.len() ==> s[pos + q] == spec_serialize_block(
                SpecSqlBlock::Conditional(id, b),
            )[q],
    ensures
        s[pos] == '-',
        s[pos + 1] == '-',
        s[pos + 2] == '~',
        s[pos + 3] == '{',
        s[pos + 4] == ' ',
        forall|j: int| 0 <= j < id.len() ==> s[pos + 5 + j] == id[j],
        s[pos + 5 + id.len()] == '\n',
        forall|j: int| 0 <= j < b.len() ==> s[pos + 6 + id.len() + j] == b[j],
        s[pos + 6 + id.len() + b.len()] == '\n',
        s[pos + 7 + id.len() + b.len()] == '-',
        s[pos + 8 + id.len() + b.len()] == '-',
        s[pos + 9 + id.len() + b.len()] == '~',
        s[pos + 10 + id.len() + b.len()] == '}',
        s[pos + 11 + id.len() + b.len()] == '\n',
{
    let nid = id.len() as int;
    let nb = b.len() as int;
    let serb = spec_serialize_block(SpecSqlBlock::Conditional(id, b));
    lemma_cond_layout(id, b);
    assert(s[pos] == serb[0] && s[pos + 1] == serb[1] && s[pos + 2] == serb[2] && s[pos + 3]
        == serb[3] && s[pos + 4] == serb[4]);
    assert forall|j: int| 0 <= j < nid implies s[pos + 5 + j] == id[j] by {
        assert(s[pos + (5 + j)] == serb[5 + j]);
    }
    assert(s[pos + (5 + nid)] == serb[5 + nid]);
    assert forall|j: int| 0 <= j < nb implies s[pos + 6 + nid + j] == b[j] by {
        assert(s[pos + (6 + nid + j)] == serb[6 + nid + j]);
    }
    assert(s[pos + (6 + nid + nb)] == serb[6 + nid + nb]);
    assert(s[pos + (7 + nid + nb)] == serb[7 + nid + nb]);
    assert(s[pos + (8 + nid + nb)] == serb[8 + nid + nb]);
    assert(s[pos + (9 + nid + nb)] == serb[9 + nid + nb]);
    assert(s[pos + (10 + nid + nb)] == serb[10 + nid + nb]);
    assert(s[pos + (11 + nid + nb)] == serb[11 + nid + nb]);
}

#[verifier::rlimit(100)]
proof fn lemma_cond_parse_at(s: Seq<char>, pos: int, id: Seq<char>, b: Seq<char>)
    requires
        0 <= pos,
        pos + 12 + id.len() + b.len() <= s.len(),
        wf_conditional(id, b),
        forall|q: int|
            0 <= q < 12 + id.len() + b.len() ==> s[pos + q] == spec_serialize_block(
                SpecSqlBlock::Conditional(id, b),
            )[q],
    ensures
        matches_at(s, pos, open_marker()),
        spec_parse_cond(s, pos) == Some((id, b, pos + 11 + id.len() + b.len())),
        s[pos + 11 + id.len() + b.len()] == '\n',
{
    lemma_cond_chars_at(s, pos, id, b);
    lemma_parse_cond_serialized(s, pos, id, b);
    assert(s.subrange(pos, pos + 4) =~= open_marker());
    assert(matches_at(s, pos, open_marker()));
}

proof fn lemma_cond_unfold(s: Seq<char>, pos: int, ls: int, id: Seq<char>, b: Seq<char>, end: int)
    requires
        0 <= ls <= pos < s.len(),
        at_line_start(s, pos),
        matches_at(s, pos, open_marker()),
        spec_parse_cond(s, pos) == Some((id, b, end)),
        pos < end < s.len(),
        s[end] == '\n',
    ensures
        spec_parse_blocks(s, pos, ls) == spec_flush(s, ls, pos) + seq![
            SpecSqlBlock::Conditional(id, b),
        ] + spec_parse_blocks(s, end + 1, end),
{
    assert(!matches_at(s, end, open_marker())) by {
        if matches_at(s, end, open_marker()) {
            assert(s.subrange(end, end + 4)[0] == s[end]);
        }
    }
    assert(spec_parse_blocks(s, end, end) == spec_parse_blocks(s, end + 1, end));
}

#[verifier::rlimit(50)]
proof fn lemma_parse_serialized_from(s: Seq<char>, i: int, ls: int, bs: Seq<SpecSqlBlock>, k: int)
    requires
        0 <= ls <= i <= s.len(),
        0 <= k <= bs.len(),
        wf_blocks(bs),
        s.len() - i == spec_serialize(bs, k).len(),
        forall|q: int| 0 <= q < s.len() - i ==> s[i + q] == spec_serialize(bs, k)[q],
        at_line_start(s, i),
        forall|j: int| ls <= j < i ==> is_space(s[j]),
    ensures
        spec_parse_blocks(s, i, ls) == bs.skip(k),
    decreases bs.len() - k,
{
    if k >= bs.len() {
        assert(i == s.len());
        lemma_trim_all_space(s.subrange(ls, s.len() as int));
        assert(spec_parse_blocks(s, i, ls) =~= bs.skip(k));
    } else {
        let ser = spec_serialize(bs, k);
        let serb = spec_serialize_block(bs[k]);
        let sern = spec_serialize(bs, k + 1);
        assert(ser == serb + sern);
        assert(wf_block(bs[k]));
        match bs[k] {
            SpecSqlBlock::Conditional(id, b) => {
                let nid = id.len() as int;
                let nb = b.len() as int;
                assert forall|q: int| 0 <= q < serb.len() implies s[i + q] == serb[q] by {
                    assert(s[i + q] == ser[q]);
                }
                lemma_cond_parse_at(s, i, id, b);
                let end = i + 11 + nid + nb;
                lemma_cond_unfold(s, i, ls, id, b, end);
                lemma_trim_all_space(s.subrange(ls, i));
                assert(spec_flush(s, ls, i) =~= Seq::<SpecSqlBlock>::empty());
                assert forall|q: int| 0 <= q < s.len() - (end + 1) implies s[end + 1 + q] == sern[q] by {
                    assert(s[end + 1 + q] == ser[serb.len() + q]);
                }
                lemma_parse_serialized_from(s, end + 1, end, bs, k + 1);
                assert(spec_parse_blocks(s, i, ls) =~= bs.skip(k));
            },
            SpecSqlBlock::Literal(t) => {
                let nt = t.len() as int;
                lemma_lit_layout(t);
                assert forall|q: int| 0 <= q < serb.len() implies s[i + q] == serb[q] by {
                    assert(s[i + q] == ser[q]);
                }
                assert forall|j: int| 0 <= j < nt implies s[i + j] == t[j] by {
                    assert(s[i + j] == serb[j]);
                }
                assert(s[i + nt] == serb[nt]);
                lemma_no_opener_over_literal(s, i, t);
                let m = i + nt + 1;
                lemma_scan_literal(s, i, m, ls);
                assert(s.subrange(ls, m) =~= s.subrange(ls, i) + t + seq!['\n']);
                crate::chars::lemma_trim_padded(s.subrange(ls, i), t, seq!['\n']);
                assert(trim_spec(s.subrange(ls, m)) == t);
                if k + 1 >= bs.len() {
                    assert(m == s.len());
                    assert(spec_parse_blocks(s, m, ls) == spec_flush(s, ls, m));
                    assert(spec_parse_blocks(s, i, ls) =~= bs.skip(k));
                } else {
                    assert(!(bs[k + 1] is Literal));
                    let id2 = bs[k + 1]->Conditional_0;
                    let b2 = bs[k + 1]->Conditional_1;
                    let nid2 = id2.len() as int;
                    let nb2 = b2.len() as int;
                    let serb2 = spec_serialize_block(bs[k + 1]);
                    let sern2 = spec_serialize(bs, k + 2);
                    assert(sern == serb2 + sern2);
                    assert(wf_block(bs[k + 1]));
                    assert forall|q: int| 0 <= q < serb2.len() implies s[m + q] == serb2[q] by {
                        assert(s[m + q] == ser[serb.len() + q]);
                        assert(ser[serb.len() + q] == sern[q]);
                    }
                    assert(at_line_start(s, m));
                    lemma_cond_parse_at(s, m, id2, b2);
                    let end2 = m + 11 + nid2 + nb2;
                    lemma_cond_unfold(s, m, ls, id2, b2, end2);
                    assert forall|q: int|
                        0 <= q < s.len() - (end2 + 1) implies s[end2 + 1 + q] == sern2[q] by {
                        assert(s[end2 + 1 + q] == ser[serb.len() + serb2.len() + q]);
                        assert(ser[serb.len() + serb2.len() + q] == sern[serb2.len() + q]);
                    }
                    lemma_parse_serialized_from(s, end2 + 1, end2, bs, k + 2);
                    assert(spec_flush(s, ls, m) =~= seq![SpecSqlBlock::Literal(t)]);
                    assert(bs[k + 1] == SpecSqlBlock::Conditional(id2, b2));
                    assert(spec_parse_blocks(s, i, ls) =~= bs.skip(k));
                }
            },
        }
    }
}

/// Writing a well-formed block sequence back to text and parsing that
/// text yields the same sequence: literal blocks stand verbatim, each
/// with a final newline; conditional bodies stand between their markers
/// with the identifier on the opening line.
pub proof fn lemma_serialize_round_trip(bs: Seq<SpecSqlBlock>)
    requires
        wf_blocks(bs),
    ensures
        spec_parse_blocks(spec_serialize(bs, 0), 0, 0) == bs,
{
    let s = spec_serialize(bs, 0);
    lemma_parse_serialized_from(s, 0, 0, bs, 0);
    assert(bs.skip(0) =~= bs);
}

/// Writes a block sequence back to text: each literal verbatim with a
/// final newline, each conditional between its markers. On the blocks
/// that `wf_blocks` describes this inverts `parse_sql_blocks`.
pub fn serialize_blocks(blocks: &Vec<SqlBlock>) -> (r: String)
    ensures
        r@ == spec_serialize(views_of(blocks@), 0),
{
    let ghost vs = views_of(blocks@);
    let mut r = String::new();
    let mut k: usize = 0;
    proof {
        assert(Seq::<char>::empty() + spec_serialize(vs, 0) =~= spec_serialize(vs, 0));
    }
    while k < blocks.len()
        invariant
            k <= blocks@.len(),
            vs == views_of(blocks@),
            spec_serialize(vs, 0) == r@ + spec_serialize(vs, k as int),
        decreases blocks@.len() - k,
    {
        let ghost r_in = r@;
        let blk = &blocks.as_slice()[k];
        proof {
            assert(vs[k as int] == blk@);
        }
        match blk {
            SqlBlock::Literal(t) => {
                r.append(t.as_str());
                r.append("\n");
                proof {
                    reveal_strlit("\n");
                    assert(r@ =~= r_in + spec_serialize_block(vs[k as int]));
                }
            },
            SqlBlock::Conditional(id, body) => {
                r.append("--~{ ");
                r.append(id.as_str());
                r.append("\n");
                r.append(body.as_str());
                r.append("\n--~}\n");
                proof {
                    reveal_strlit("--~{ ");
                    reveal_strlit("\n");
                    reveal_strlit("\n--~}\n");
                    assert(r@ =~= r_in + spec_serialize_block(vs[k as int]));
                }
            },
        }
        proof {
            assert(r_in + (spec_serialize_block(vs[k as int]) + spec_serialize(vs, k + 1)) =~= r@
                + spec_serialize(vs, k + 1));
        }
        k = k + 1;
    }
    proof {
        assert(r@ + spec_serialize(vs, blocks@.len() as int) =~= r@);
    }
    r
}

} // verus!
