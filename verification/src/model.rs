//! The parser as a state machine over characters: its abstract state, the
//! transition for one character, and the invariant that every transition
//! keeps.
use vstd::prelude::*;
use crate::blocks::{BlockView, ParamsView, keys_unique, params_set, lemma_params_set_unique};
use crate::text::{utf8_len, ends_with, trim, is_trimmed, char_index_at_byte, lemma_trim_is_trimmed,
    lemma_trim_of_trimmed,
    lemma_utf8_len_push, lemma_utf8_len_concat, lemma_utf8_len_single, char_width};

verus! {

/// Largest accumulated message, in bytes.
pub const MAX_ACCUMULATOR_SIZE: usize = 1024 * 1024;

/// Largest parameter value that is still followed, in bytes.
pub const MAX_PARAM_LENGTH: usize = 1024 * 100;

/// Abstract state of a parser.
pub struct ParserView {
    /// Tool names that open a tool block.
    pub tool_names: Seq<Seq<char>>,
    /// Parameter names that open a parameter inside a tool block.
    pub param_names: Seq<Seq<char>>,
    /// Tag prefixes that are held back from streamed text.
    pub prefixes: Seq<Seq<char>>,
    /// Blocks emitted so far.
    pub blocks: Seq<BlockView>,
    /// Index of the text block being extended.
    pub text_block: Option<int>,
    /// Character index in `acc` where the current text block starts.
    pub text_start: int,
    /// Index of the tool block being read.
    pub tool_block: Option<int>,
    /// Character index in `acc` just after the current tool's opening tag.
    pub tool_start: int,
    /// Name of the parameter being read.
    pub param: Option<Seq<char>>,
    /// Character index in `acc` just after the current parameter's opening tag.
    pub param_start: int,
    /// Every character fed so far.
    pub acc: Seq<char>,
    /// Byte position in the joined text up to which text has been streamed.
    pub cursor: int,
}

// ---------------------------------------------------------------------
// Searching
// ---------------------------------------------------------------------

/// `i` is the first index of `s` whose element satisfies `p`.
pub open spec fn is_first_index<A>(s: Seq<A>, p: spec_fn(A) -> bool, i: int) -> bool {
    &&& 0 <= i < s.len()
    &&& p(s[i])
    &&& forall|j: int| 0 <= j < i ==> !p(#[trigger] s[j])
}

/// The first index of `s` whose element satisfies `p`, if any.
pub open spec fn first_index<A>(s: Seq<A>, p: spec_fn(A) -> bool) -> Option<int> {
    if exists|i: int| is_first_index(s, p, i) {
        Some(choose|i: int| is_first_index(s, p, i))
    } else {
        None
    }
}

pub proof fn lemma_first_index_found<A>(s: Seq<A>, p: spec_fn(A) -> bool, i: int)
    requires
        is_first_index(s, p, i),
    ensures
        first_index(s, p) == Some(i),
{
    let i2 = choose|i2: int| is_first_index(s, p, i2);
    assert(is_first_index(s, p, i2));
    if i2 < i {
        assert(p(s[i2]));
    } else if i < i2 {
        assert(p(s[i]));
    }
}

pub proof fn lemma_first_index_none<A>(s: Seq<A>, p: spec_fn(A) -> bool)
    requires
        forall|j: int| 0 <= j < s.len() ==> !p(#[trigger] s[j]),
    ensures
        first_index(s, p) == None::<int>,
{
}

/// Where some element satisfies `p`, a first one does.
pub proof fn lemma_first_index_exists<A>(s: Seq<A>, p: spec_fn(A) -> bool, j: int)
    requires
        0 <= j < s.len(),
        p(s[j]),
    ensures
        first_index(s, p) is Some,
    decreases j,
{
    if exists|k: int| 0 <= k < j && p(s[k]) {
        let k = choose|k: int| 0 <= k < j && p(s[k]);
        lemma_first_index_exists(s, p, k);
    } else {
        assert(is_first_index(s, p, j));
        lemma_first_index_found(s, p, j);
    }
}

pub proof fn lemma_first_index_some<A>(s: Seq<A>, p: spec_fn(A) -> bool)
    requires
        first_index(s, p) is Some,
    ensures
        is_first_index(s, p, first_index(s, p)->0),
{
}

/// `needle` occurs in `hay` at index `i`.
pub open spec fn occurs_at(hay: Seq<char>, needle: Seq<char>, i: int) -> bool {
    0 <= i && i + needle.len() <= hay.len() && hay.subrange(i, i + needle.len()) == needle
}

/// `i` is the first occurrence of `needle` in `hay`.
pub open spec fn is_first_occurrence(hay: Seq<char>, needle: Seq<char>, i: int) -> bool {
    occurs_at(hay, needle, i) && forall|j: int| 0 <= j < i ==> !occurs_at(hay, needle, j)
}

/// `i` is the last occurrence of `needle` in `hay`.
pub open spec fn is_last_occurrence(hay: Seq<char>, needle: Seq<char>, i: int) -> bool {
    occurs_at(hay, needle, i) && forall|j: int| i < j <= hay.len() ==> !occurs_at(hay, needle, j)
}

/// Index of the first occurrence of `needle` in `hay` (`str::find`).
pub open spec fn find_first(hay: Seq<char>, needle: Seq<char>) -> Option<int> {
    if exists|i: int| is_first_occurrence(hay, needle, i) {
        Some(choose|i: int| is_first_occurrence(hay, needle, i))
    } else {
        None
    }
}

/// Index of the last occurrence of `needle` in `hay` (`str::rfind`).
pub open spec fn find_last(hay: Seq<char>, needle: Seq<char>) -> Option<int> {
    if exists|i: int| is_last_occurrence(hay, needle, i) {
        Some(choose|i: int| is_last_occurrence(hay, needle, i))
    } else {
        None
    }
}

pub proof fn lemma_find_first_found(hay: Seq<char>, needle: Seq<char>, i: int)
    requires
        is_first_occurrence(hay, needle, i),
    ensures
        find_first(hay, needle) == Some(i),
{
    let i2 = choose|i2: int| is_first_occurrence(hay, needle, i2);
    assert(is_first_occurrence(hay, needle, i2));
    if i2 < i {
        assert(occurs_at(hay, needle, i2));
    } else if i < i2 {
        assert(occurs_at(hay, needle, i));
    }
}

pub proof fn lemma_find_last_found(hay: Seq<char>, needle: Seq<char>, i: int)
    requires
        is_last_occurrence(hay, needle, i),
    ensures
        find_last(hay, needle) == Some(i),
{
    let i2 = choose|i2: int| is_last_occurrence(hay, needle, i2);
    assert(is_last_occurrence(hay, needle, i2));
    if i2 < i {
        assert(occurs_at(hay, needle, i));
    } else if i < i2 {
        assert(occurs_at(hay, needle, i2));
    }
}

// ---------------------------------------------------------------------
// Tags and parameter values
// ---------------------------------------------------------------------

/// `<name>`
pub open spec fn opening_tag(name: Seq<char>) -> Seq<char> {
    "<"@ + name + ">"@
}

/// `<name`: the opening tag before its `>`.
pub open spec fn partial_opening_tag(name: Seq<char>) -> Seq<char> {
    "<"@ + name
}

/// `</name>`
pub open spec fn closing_tag(name: Seq<char>) -> Seq<char> {
    "</"@ + name + ">"@
}

/// `s` without one leading and one trailing newline.
pub open spec fn strip_one_newline(s: Seq<char>) -> Seq<char> {
    let a = if s.len() > 0 && s[0] == '\n' {
        s.drop_first()
    } else {
        s
    };
    if a.len() > 0 && a.last() == '\n' {
        a.drop_last()
    } else {
        a
    }
}

/// The stored value of a parameter: a `content` parameter loses one leading
/// and one trailing newline; any other parameter is trimmed.
pub open spec fn normalize_param_value(name: Seq<char>, raw: Seq<char>) -> Seq<char> {
    if name == "content"@ {
        strip_one_newline(raw)
    } else {
        trim(raw)
    }
}

// ---------------------------------------------------------------------
// One character
// ---------------------------------------------------------------------

/// Sets parameter `name` of the current tool block to `value`.
pub open spec fn set_tool_param(m: ParserView, name: Seq<char>, value: Seq<char>) -> ParserView {
    match m.tool_block {
        Some(ti) => match m.blocks[ti] {
            BlockView::Tool { name: tool_name, params, partial } => ParserView {
                blocks: m.blocks.update(
                    ti,
                    BlockView::Tool { name: tool_name, params: params_set(params, name, value), partial },
                ),
                ..m
            },
            BlockView::Text { .. } => m,
        },
        None => m,
    }
}

/// The current parameter after one more character: abandoned when its
/// value grew too long (second component false), closed when its closing
/// tag was read, else updated with the value read so far.
pub open spec fn param_step(m: ParserView) -> (ParserView, bool) {
    let name = m.param->0;
    let value = m.acc.subrange(m.param_start, m.acc.len() as int);
    if utf8_len(value) > MAX_PARAM_LENGTH {
        (ParserView { param: None, param_start: 0, ..m }, false)
    } else if ends_with(value, closing_tag(name)) {
        let raw = value.subrange(0, value.len() - closing_tag(name).len());
        (ParserView { param: None, ..set_tool_param(m, name, normalize_param_value(name, raw)) }, true)
    } else {
        (set_tool_param(m, name, value), true)
    }
}

/// The text between the first `<content>` and the last `</content>` of the
/// current tool's body becomes its `content` parameter.
pub open spec fn refresh_content(m: ParserView) -> ParserView {
    let body = m.acc.subrange(m.tool_start, m.acc.len() as int);
    match (find_first(body, "<content>"@), find_last(body, "</content>"@)) {
        (Some(s0), Some(e)) => {
            let s = s0 + "<content>"@.len();
            if e <= s {
                m
            } else {
                set_tool_param(
                    m,
                    "content"@,
                    normalize_param_value("content"@, body.subrange(s, e)),
                )
            }
        },
        _ => m,
    }
}

/// The first parameter whose opening tag ends the accumulated text.
pub open spec fn param_tag_match(m: ParserView) -> Option<int> {
    first_index(m.param_names, |p: Seq<char>| ends_with(m.acc, opening_tag(p)))
}

/// The first tool whose opening tag ends the accumulated text.
pub open spec fn tool_tag_match(m: ParserView) -> Option<int> {
    first_index(m.tool_names, |n: Seq<char>| ends_with(m.acc, opening_tag(n)))
}

/// The current tool block after one more character: closed by its closing
/// tag, or else possibly opening a parameter, and for `write_to_file`
/// refreshing its `content` when a `</content>` was read.
pub open spec fn tool_step(m: ParserView) -> ParserView {
    let ti = m.tool_block->0;
    match m.blocks[ti] {
        BlockView::Tool { name, params, partial } => {
            let body = m.acc.subrange(m.tool_start, m.acc.len() as int);
            if ends_with(body, closing_tag(name)) {
                ParserView {
                    blocks: m.blocks.update(ti, BlockView::Tool { name, params, partial: false }),
                    tool_block: None,
                    ..m
                }
            } else {
                let m2 = match param_tag_match(m) {
                    Some(pi) => ParserView {
                        param: Some(m.param_names[pi]),
                        param_start: m.acc.len() as int,
                        ..m
                    },
                    None => m,
                };
                if name == "write_to_file"@ && ends_with(m.acc, "</content>"@) {
                    refresh_content(m2)
                } else {
                    m2
                }
            }
        },
        BlockView::Text { .. } => m,
    }
}

/// The bytes of `content` that remain once the partial tag `<name` is
/// cut from its end (none when it is shorter).
pub open spec fn kept_bytes(content: Seq<char>, name: Seq<char>) -> int {
    let c = utf8_len(content) as int;
    let p = utf8_len(partial_opening_tag(name)) as int;
    if c >= p {
        c - p
    } else {
        0
    }
}

/// The state right after the opening tag of tool `name` was read, where
/// `blocks` are the blocks before the new, partial tool block.
pub open spec fn open_tool(m: ParserView, blocks: Seq<BlockView>, name: Seq<char>) -> ParserView {
    ParserView {
        blocks: blocks.push(BlockView::Tool { name, params: Seq::empty(), partial: true }),
        tool_block: Some(blocks.len() as int),
        tool_start: m.acc.len() as int,
        text_block: None,
        ..m
    }
}

/// A tool block opens (tool `i`): the current text block, if any, is closed
/// and loses the partial tag, and is dropped when nothing of it remains.
/// `None` when the cut does not fall on a character boundary.
pub open spec fn start_tool(m: ParserView, i: int) -> Option<ParserView> {
    let name = m.tool_names[i];
    match m.text_block {
        None => Some(open_tool(m, m.blocks, name)),
        Some(t) => match m.blocks[t] {
            BlockView::Text { content, partial } => match char_index_at_byte(
                content,
                kept_bytes(content, name),
            ) {
                Some(k) => {
                    let kept = trim(content.take(k));
                    if kept.len() == 0 {
                        Some(open_tool(m, m.blocks.remove(t), name))
                    } else {
                        Some(
                            open_tool(
                                m,
                                m.blocks.update(t, BlockView::Text { content: kept, partial: false }),
                                name,
                            ),
                        )
                    }
                },
                None => None,
            },
            BlockView::Tool { .. } => Some(open_tool(m, m.blocks, name)),
        },
    }
}

/// Plain text: the current text block becomes the trimmed text since its
/// start, or a new partial text block starts at `pos`.
pub open spec fn text_step(m: ParserView, pos: int) -> ParserView {
    match m.text_block {
        Some(t) => match m.blocks[t] {
            BlockView::Text { content, partial } => ParserView {
                blocks: m.blocks.update(
                    t,
                    BlockView::Text {
                        content: trim(m.acc.subrange(m.text_start, m.acc.len() as int)),
                        partial,
                    },
                ),
                ..m
            },
            BlockView::Tool { .. } => m,
        },
        None => ParserView {
            text_start: pos,
            blocks: m.blocks.push(
                BlockView::Text { content: trim(m.acc.subrange(pos, m.acc.len() as int)), partial: true },
            ),
            text_block: Some(m.blocks.len() as int),
            ..m
        },
    }
}

/// The state after reading one more character; `None` where the cut of a
/// closing text block would split a character.
pub open spec fn step(m: ParserView, ch: char) -> Option<ParserView> {
    let pos = m.acc.len() as int;
    let m1 = ParserView { acc: m.acc.push(ch), ..m };
    if m1.tool_block is Some && m1.param is Some {
        let (m2, handled) = param_step(m1);
        if handled {
            Some(m2)
        } else {
            Some(tool_step(m2))
        }
    } else if m1.tool_block is Some {
        Some(tool_step(m1))
    } else {
        match tool_tag_match(m1) {
            Some(i) => start_tool(m1, i),
            None => Some(text_step(m1, pos)),
        }
    }
}

/// The state after reading every character of `s` in order.
pub open spec fn feed(m: ParserView, s: Seq<char>) -> Option<ParserView>
    decreases s.len(),
{
    if s.len() == 0 {
        Some(m)
    } else {
        match step(m, s[0]) {
            Some(m2) => feed(m2, s.drop_first()),
            None => None,
        }
    }
}

/// A chunk fits when the message, with it, stays within the size limit.
pub open spec fn chunk_fits(m: ParserView, chunk: Seq<char>) -> bool {
    utf8_len(m.acc) + utf8_len(chunk) <= MAX_ACCUMULATOR_SIZE
}

/// A chunk can be processed: it is refused as too large, or every one of
/// its characters can be read.
pub open spec fn chunk_accepted(m: ParserView, chunk: Seq<char>) -> bool {
    chunk_fits(m, chunk) ==> feed(m, chunk) is Some
}

// ---------------------------------------------------------------------
// Whole-state operations
// ---------------------------------------------------------------------

/// A parser with configuration only: nothing read.
pub open spec fn is_initial(m: ParserView) -> bool {
    &&& m.blocks == Seq::<BlockView>::empty()
    &&& m.text_block is None
    &&& m.text_start == 0
    &&& m.tool_block is None
    &&& m.tool_start == 0
    &&& m.param is None
    &&& m.param_start == 0
    &&& m.acc == Seq::<char>::empty()
    &&& m.cursor == 0
}

/// `m` with its reading state cleared and its configuration kept.
pub open spec fn reset(m: ParserView) -> ParserView {
    ParserView {
        blocks: Seq::empty(),
        text_block: None,
        text_start: 0,
        tool_block: None,
        tool_start: 0,
        param: None,
        param_start: 0,
        acc: Seq::empty(),
        cursor: 0,
        ..m
    }
}

/// A block marked complete; text is trimmed.
pub open spec fn finalize_block(b: BlockView) -> BlockView {
    match b {
        BlockView::Text { content, .. } => BlockView::Text { content: trim(content), partial: false },
        BlockView::Tool { name, params, .. } => BlockView::Tool { name, params, partial: false },
    }
}

/// Every block marked complete.
pub open spec fn finalize(m: ParserView) -> ParserView {
    ParserView { blocks: m.blocks.map_values(|b: BlockView| finalize_block(b)), ..m }
}

/// The contents of the text blocks, in order.
pub open spec fn text_parts(blocks: Seq<BlockView>) -> Seq<Seq<char>>
    decreases blocks.len(),
{
    if blocks.len() == 0 {
        Seq::empty()
    } else {
        let rest = text_parts(blocks.drop_last());
        match blocks.last() {
            BlockView::Text { content, .. } => rest.push(content),
            BlockView::Tool { .. } => rest,
        }
    }
}

/// `parts` joined with single spaces.
pub open spec fn join_spaced(parts: Seq<Seq<char>>) -> Seq<char>
    decreases parts.len(),
{
    if parts.len() == 0 {
        Seq::empty()
    } else if parts.len() == 1 {
        parts[0]
    } else {
        join_spaced(parts.drop_last()) + seq![' '] + parts.last()
    }
}

/// All text of the message: the text blocks joined with spaces.
pub open spec fn joined_text(m: ParserView) -> Seq<char> {
    join_spaced(text_parts(m.blocks))
}

/// The first tag prefix that ends the joined text.
pub open spec fn held_prefix(m: ParserView) -> Option<int> {
    first_index(m.prefixes, |p: Seq<char>| ends_with(joined_text(m), p))
}

/// Byte position where the held-back prefix starts, or the end of the
/// joined text when none is held back.
pub open spec fn stream_end(m: ParserView) -> int {
    let text = joined_text(m);
    match held_prefix(m) {
        Some(pi) => utf8_len(text) - utf8_len(m.prefixes[pi]),
        None => utf8_len(text) as int,
    }
}

/// Character index where the held-back prefix starts, or the end.
pub open spec fn stream_end_index(m: ParserView) -> int {
    let text = joined_text(m);
    match held_prefix(m) {
        Some(pi) => text.len() - m.prefixes[pi].len(),
        None => text.len() as int,
    }
}

/// The next piece of text to stream exists: there is unstreamed text before
/// the held-back prefix.
pub open spec fn has_next_chunk(m: ParserView) -> bool {
    m.cursor < utf8_len(joined_text(m)) && m.cursor < stream_end(m)
}

/// Streaming the next piece cuts the joined text at a character boundary.
pub open spec fn next_chunk_defined(m: ParserView) -> bool {
    has_next_chunk(m) ==> char_index_at_byte(joined_text(m), m.cursor) is Some
}

/// The next piece of text to stream.
pub open spec fn next_chunk(m: ParserView) -> Seq<char> {
    let text = joined_text(m);
    text.subrange(char_index_at_byte(text, m.cursor)->0, stream_end_index(m))
}

/// The last block is text that does not end with a tag prefix.
pub open spec fn last_block_text_surely(m: ParserView) -> bool {
    &&& m.blocks.len() > 0
    &&& match m.blocks.last() {
        BlockView::Text { content, .. } => forall|i: int|
            0 <= i < m.prefixes.len() ==> !ends_with(content, #[trigger] m.prefixes[i]),
        BlockView::Tool { .. } => false,
    }
}

// ---------------------------------------------------------------------
// The invariant
// ---------------------------------------------------------------------

/// Each tool block names a configured tool, and has unique parameter keys,
/// each a configured parameter name or `content`; each text block is
/// trimmed.
pub open spec fn block_ok(tool_names: Seq<Seq<char>>, param_names: Seq<Seq<char>>, b: BlockView) -> bool {
    match b {
        BlockView::Tool { name, params, .. } => {
            &&& tool_names.contains(name)
            &&& keys_unique(params)
            &&& forall|k: int|
                0 <= k < params.len() ==> param_names.contains(#[trigger] params[k].0)
                    || params[k].0 == "content"@
        },
        BlockView::Text { content, .. } => is_trimmed(content),
    }
}

/// Every block satisfies `block_ok`.
#[verifier::opaque]
pub open spec fn blocks_ok(
    tool_names: Seq<Seq<char>>,
    param_names: Seq<Seq<char>>,
    blocks: Seq<BlockView>,
) -> bool {
    forall|i: int| 0 <= i < blocks.len() ==> block_ok(tool_names, param_names, #[trigger] blocks[i])
}

/// Every block but the last is complete.
#[verifier::opaque]
pub open spec fn settled(blocks: Seq<BlockView>) -> bool {
    forall|i: int| 0 <= i < blocks.len() - 1 ==> !(#[trigger] blocks[i]).is_partial()
}

/// No two text blocks are adjacent.
#[verifier::opaque]
pub open spec fn no_adjacent_text(blocks: Seq<BlockView>) -> bool {
    forall|i: int|
        0 <= i < blocks.len() - 1 ==> !(#[trigger] blocks[i] is Text && blocks[i + 1] is Text)
}

/// The invariant of every reachable parser state, except for how the
/// current text block relates to the accumulated text.
pub open spec fn inv_core(m: ParserView) -> bool {
    let n = m.blocks.len() as int;
    &&& utf8_len(m.acc) <= MAX_ACCUMULATOR_SIZE
    &&& n <= m.acc.len()
    &&& 0 <= m.text_start <= m.acc.len()
    &&& 0 <= m.tool_start <= m.acc.len()
    &&& 0 <= m.param_start <= m.acc.len()
    &&& 0 <= m.cursor
    &&& (m.text_block matches Some(t) ==> t == n - 1 && 0 <= t && m.tool_block is None
        && m.blocks[t] is Text)
    &&& (m.tool_block matches Some(t) ==> t == n - 1 && 0 <= t && m.blocks[t] is Tool)
    &&& (m.param matches Some(p) ==> m.tool_block is Some && m.param_names.contains(p))
    &&& (n > 0 && m.blocks[n - 1] is Text ==> m.text_block == Some(n - 1))
    &&& (n > 0 && m.blocks[n - 1] is Tool && m.tool_block is None ==> !m.blocks[n - 1].is_partial())
    &&& blocks_ok(m.tool_names, m.param_names, m.blocks)
    &&& settled(m.blocks)
    &&& no_adjacent_text(m.blocks)
}

/// The current text block holds the trimmed text read since it started.
pub open spec fn text_current(m: ParserView) -> bool {
    m.text_block matches Some(t) ==> (m.blocks[t] matches BlockView::Text { content, .. }
        && content == trim(m.acc.subrange(m.text_start, m.acc.len() as int)))
}

/// Total bytes of the text blocks' contents.
pub open spec fn text_bytes(blocks: Seq<BlockView>) -> nat
    decreases blocks.len(),
{
    if blocks.len() == 0 {
        0
    } else {
        text_bytes(blocks.drop_last()) + match blocks.last() {
            BlockView::Text { content, .. } => utf8_len(content),
            BlockView::Tool { .. } => 0,
        }
    }
}

/// The text blocks hold no more bytes than were read; those before the
/// current text block, no more than were read before it started.
pub open spec fn text_bounded(m: ParserView) -> bool {
    &&& text_bytes(m.blocks) <= utf8_len(m.acc)
    &&& (m.text_block matches Some(t) ==> text_bytes(m.blocks.take(t)) <= utf8_len(
        m.acc.take(m.text_start),
    ))
}

/// The invariant of every reachable parser state.
pub open spec fn view_wf(m: ParserView) -> bool {
    inv_core(m) && text_current(m) && text_bounded(m)
}

// ---------------------------------------------------------------------
// The invariant is kept
// ---------------------------------------------------------------------

proof fn lemma_blocks_update_last(
    tn: Seq<Seq<char>>,
    pn: Seq<Seq<char>>,
    blocks: Seq<BlockView>,
    nb: BlockView,
)
    requires
        blocks.len() > 0,
        blocks_ok(tn, pn, blocks),
        settled(blocks),
        no_adjacent_text(blocks),
        block_ok(tn, pn, nb),
        (nb is Text) == (blocks.last() is Text),
    ensures
        blocks_ok(tn, pn, blocks.update(blocks.len() - 1, nb)),
        settled(blocks.update(blocks.len() - 1, nb)),
        no_adjacent_text(blocks.update(blocks.len() - 1, nb)),
{
    reveal(blocks_ok);
    reveal(settled);
    reveal(no_adjacent_text);
    let r = blocks.update(blocks.len() - 1, nb);
    assert forall|i: int| 0 <= i < r.len() implies block_ok(tn, pn, #[trigger] r[i]) by {
        if i != blocks.len() - 1 {
            assert(r[i] == blocks[i]);
        }
    }
    assert forall|i: int| 0 <= i < r.len() - 1 implies !(#[trigger] r[i]).is_partial() by {
        assert(r[i] == blocks[i]);
    }
    assert forall|i: int| 0 <= i < r.len() - 1 implies !(#[trigger] r[i] is Text && r[i + 1] is Text) by {
        assert(r[i] == blocks[i]);
        assert(blocks[i] is Text && blocks[i + 1] is Text ==> false);
    }
}

proof fn lemma_blocks_push(tn: Seq<Seq<char>>, pn: Seq<Seq<char>>, blocks: Seq<BlockView>, nb: BlockView)
    requires
        blocks_ok(tn, pn, blocks),
        settled(blocks),
        no_adjacent_text(blocks),
        block_ok(tn, pn, nb),
        blocks.len() > 0 ==> !blocks.last().is_partial(),
        blocks.len() > 0 && blocks.last() is Text ==> !(nb is Text),
    ensures
        blocks_ok(tn, pn, blocks.push(nb)),
        settled(blocks.push(nb)),
        no_adjacent_text(blocks.push(nb)),
{
    reveal(blocks_ok);
    reveal(settled);
    reveal(no_adjacent_text);
    let r = blocks.push(nb);
    assert forall|i: int| 0 <= i < r.len() implies block_ok(tn, pn, #[trigger] r[i]) by {
        if i < blocks.len() {
            assert(r[i] == blocks[i]);
        }
    }
    assert forall|i: int| 0 <= i < r.len() - 1 implies !(#[trigger] r[i]).is_partial() by {
        assert(r[i] == blocks[i]);
    }
    assert forall|i: int| 0 <= i < r.len() - 1 implies !(#[trigger] r[i] is Text && r[i + 1] is Text) by {
        assert(r[i] == blocks[i]);
        if i + 1 < blocks.len() {
            assert(r[i + 1] == blocks[i + 1]);
        }
    }
}

proof fn lemma_blocks_drop_last(tn: Seq<Seq<char>>, pn: Seq<Seq<char>>, blocks: Seq<BlockView>)
    requires
        blocks.len() > 0,
        blocks_ok(tn, pn, blocks),
        settled(blocks),
        no_adjacent_text(blocks),
    ensures
        blocks_ok(tn, pn, blocks.drop_last()),
        settled(blocks.drop_last()),
        no_adjacent_text(blocks.drop_last()),
        blocks.len() > 1 ==> !blocks.drop_last().last().is_partial(),
{
    reveal(blocks_ok);
    reveal(settled);
    reveal(no_adjacent_text);
    let r = blocks.drop_last();
    assert forall|i: int| 0 <= i < r.len() implies block_ok(tn, pn, #[trigger] r[i]) by {
        assert(r[i] == blocks[i]);
    }
    assert forall|i: int| 0 <= i < r.len() - 1 implies !(#[trigger] r[i]).is_partial() by {
        assert(r[i] == blocks[i]);
    }
    assert forall|i: int| 0 <= i < r.len() - 1 implies !(#[trigger] r[i] is Text && r[i + 1] is Text) by {
        assert(r[i] == blocks[i]);
        assert(r[i + 1] == blocks[i + 1]);
    }
    if blocks.len() > 1 {
        assert(r.last() == blocks[blocks.len() - 2]);
    }
}

proof fn lemma_blocks_ok_at(tn: Seq<Seq<char>>, pn: Seq<Seq<char>>, blocks: Seq<BlockView>, i: int)
    requires
        blocks_ok(tn, pn, blocks),
        0 <= i < blocks.len(),
    ensures
        block_ok(tn, pn, blocks[i]),
{
    reveal(blocks_ok);
}

pub(crate) proof fn lemma_push_acc(m: ParserView, ch: char)
    requires
        view_wf(m),
        utf8_len(m.acc.push(ch)) <= MAX_ACCUMULATOR_SIZE,
    ensures
        inv_core(ParserView { acc: m.acc.push(ch), ..m }),
{
}

proof fn lemma_set_tool_param_core(m: ParserView, name: Seq<char>, value: Seq<char>)
    requires
        inv_core(m),
        m.tool_block is Some,
        m.param_names.contains(name) || name == "content"@,
    ensures
        inv_core(set_tool_param(m, name, value)),
        set_tool_param(m, name, value).tool_block == m.tool_block,
        set_tool_param(m, name, value).text_block == m.text_block,
        set_tool_param(m, name, value).param == m.param,
        set_tool_param(m, name, value).acc == m.acc,
        set_tool_param(m, name, value).tool_start == m.tool_start,
        set_tool_param(m, name, value).blocks.len() == m.blocks.len(),
        set_tool_param(m, name, value).tool_names == m.tool_names,
        set_tool_param(m, name, value).param_names == m.param_names,
        set_tool_param(m, name, value).cursor == m.cursor,
{
    let ti = m.tool_block->0;
    match m.blocks[ti] {
        BlockView::Tool { name: tool_name, params, partial } => {
            lemma_blocks_ok_at(m.tool_names, m.param_names, m.blocks, ti);
            lemma_params_set_unique(params, name, value);
            let ps = params_set(params, name, value);
            let nb = BlockView::Tool { name: tool_name, params: ps, partial };
            assert forall|k: int| 0 <= k < ps.len() implies m.param_names.contains(
                #[trigger] ps[k].0,
            ) || ps[k].0 == "content"@ by {
                if ps[k].0 != name {
                    assert(ps[k] == params[k]);
                }
            }
            assert(block_ok(m.tool_names, m.param_names, nb));
            lemma_blocks_update_last(m.tool_names, m.param_names, m.blocks, nb);
        },
        BlockView::Text { .. } => {},
    }
}

pub(crate) proof fn lemma_param_step_core(m: ParserView)
    requires
        inv_core(m),
        m.tool_block is Some,
        m.param is Some,
    ensures
        inv_core(param_step(m).0),
        param_step(m).0.tool_block == m.tool_block,
        param_step(m).0.text_block == m.text_block,
        param_step(m).0.acc == m.acc,
        param_step(m).0.tool_start == m.tool_start,
        param_step(m).0.tool_names == m.tool_names,
        param_step(m).0.cursor == m.cursor,
        !param_step(m).1 ==> param_step(m).0.param is None,
{
    let name = m.param->0;
    let value = m.acc.subrange(m.param_start, m.acc.len() as int);
    if utf8_len(value) > MAX_PARAM_LENGTH {
    } else if ends_with(value, closing_tag(name)) {
        let raw = value.subrange(0, value.len() - closing_tag(name).len());
        lemma_set_tool_param_core(m, name, normalize_param_value(name, raw));
    } else {
        lemma_set_tool_param_core(m, name, value);
    }
}

pub(crate) proof fn lemma_tool_step_core(m: ParserView)
    requires
        inv_core(m),
        m.tool_block is Some,
        m.param is None,
    ensures
        inv_core(tool_step(m)),
        tool_step(m).text_block is None,
        tool_step(m).acc == m.acc,
{
    let ti = m.tool_block->0;
    match m.blocks[ti] {
        BlockView::Tool { name, params, partial } => {
            let body = m.acc.subrange(m.tool_start, m.acc.len() as int);
            if ends_with(body, closing_tag(name)) {
                lemma_blocks_ok_at(m.tool_names, m.param_names, m.blocks, ti);
                let nb = BlockView::Tool { name, params, partial: false };
                lemma_blocks_update_last(m.tool_names, m.param_names, m.blocks, nb);
            } else {
                let m2 = match param_tag_match(m) {
                    Some(pi) => ParserView {
                        param: Some(m.param_names[pi]),
                        param_start: m.acc.len() as int,
                        ..m
                    },
                    None => m,
                };
                if let Some(pi) = param_tag_match(m) {
                    lemma_first_index_some(
                        m.param_names,
                        |p: Seq<char>| ends_with(m.acc, opening_tag(p)),
                    );
                    assert(m.param_names.contains(m.param_names[pi]));
                }
                assert(inv_core(m2));
                if name == "write_to_file"@ && ends_with(m.acc, "</content>"@) {
                    let body2 = m2.acc.subrange(m2.tool_start, m2.acc.len() as int);
                    match (find_first(body2, "<content>"@), find_last(body2, "</content>"@)) {
                        (Some(s0), Some(e)) => {
                            let st = s0 + "<content>"@.len();
                            if e > st {
                                lemma_set_tool_param_core(
                                    m2,
                                    "content"@,
                                    normalize_param_value("content"@, body2.subrange(st, e)),
                                );
                            }
                        },
                        _ => {},
                    }
                }
            }
        },
        BlockView::Text { .. } => {},
    }
}

proof fn lemma_start_tool_wf(m: ParserView, i: int)
    requires
        inv_core(m),
        m.tool_block is None,
        m.param is None,
        0 <= i < m.tool_names.len(),
        m.blocks.len() < m.acc.len(),
        start_tool(m, i) is Some,
    ensures
        inv_core(start_tool(m, i)->0),
        text_current(start_tool(m, i)->0),
        (start_tool(m, i)->0).acc == m.acc,
{
    let name = m.tool_names[i];
    let n = m.blocks.len() as int;
    let nb = BlockView::Tool { name, params: Seq::empty(), partial: true };
    assert(m.tool_names.contains(name));
    assert(block_ok(m.tool_names, m.param_names, nb));
    match m.text_block {
        None => {
            lemma_blocks_push(m.tool_names, m.param_names, m.blocks, nb);
        },
        Some(t) => {
            match m.blocks[t] {
                BlockView::Text { content, partial } => {
                    let k = char_index_at_byte(content, kept_bytes(content, name))->0;
                    if trim(content.take(k)).len() == 0 {
                        assert(m.blocks.remove(t) =~= m.blocks.drop_last());
                        lemma_blocks_drop_last(m.tool_names, m.param_names, m.blocks);
                        lemma_blocks_push(m.tool_names, m.param_names, m.blocks.drop_last(), nb);
                    } else {
                        lemma_trim_is_trimmed(content.take(k));
                        let tb = BlockView::Text { content: trim(content.take(k)), partial: false };
                        lemma_blocks_update_last(m.tool_names, m.param_names, m.blocks, tb);
                        let b1 = m.blocks.update(t, tb);
                        lemma_blocks_push(m.tool_names, m.param_names, b1, nb);
                    }
                },
                BlockView::Tool { .. } => {},
            }
        },
    }
}

proof fn lemma_text_step_wf(m: ParserView, pos: int)
    requires
        inv_core(m),
        m.tool_block is None,
        m.param is None,
        pos == m.acc.len() - 1,
        0 <= pos,
        m.blocks.len() < m.acc.len(),
    ensures
        inv_core(text_step(m, pos)),
        text_current(text_step(m, pos)),
        text_step(m, pos).acc == m.acc,
{
    match m.text_block {
        Some(t) => {
            lemma_trim_is_trimmed(m.acc.subrange(m.text_start, m.acc.len() as int));
            match m.blocks[t] {
                BlockView::Text { content, partial } => {
                    let tb = BlockView::Text {
                        content: trim(m.acc.subrange(m.text_start, m.acc.len() as int)),
                        partial,
                    };
                    lemma_blocks_update_last(m.tool_names, m.param_names, m.blocks, tb);
                },
                BlockView::Tool { .. } => {},
            }
        },
        None => {
            lemma_trim_is_trimmed(m.acc.subrange(pos, m.acc.len() as int));
            let tb = BlockView::Text { content: trim(m.acc.subrange(pos, m.acc.len() as int)), partial: true };
            lemma_blocks_push(m.tool_names, m.param_names, m.blocks, tb);
        },
    }
}

/// Reading a character keeps the invariant and appends it to the
/// accumulated text.
pub proof fn lemma_step_wf(m: ParserView, ch: char)
    requires
        view_wf(m),
        utf8_len(m.acc.push(ch)) <= MAX_ACCUMULATOR_SIZE,
        step(m, ch) is Some,
    ensures
        view_wf(step(m, ch)->0),
        (step(m, ch)->0).acc == m.acc.push(ch),
        (step(m, ch)->0).tool_names == m.tool_names,
        (step(m, ch)->0).param_names == m.param_names,
        (step(m, ch)->0).prefixes == m.prefixes,
        (step(m, ch)->0).cursor == m.cursor,
{
    let pos = m.acc.len() as int;
    let m1 = ParserView { acc: m.acc.push(ch), ..m };
    lemma_push_acc(m, ch);
    lemma_step_bounded(m, ch);
    if m1.tool_block is Some && m1.param is Some {
        lemma_param_step_core(m1);
        let (m2, handled) = param_step(m1);
        if !handled {
            lemma_tool_step_core(m2);
        }
    } else if m1.tool_block is Some {
        lemma_tool_step_core(m1);
    } else {
        assert(m1.blocks.len() < m1.acc.len());
        match tool_tag_match(m1) {
            Some(i) => {
                lemma_first_index_some(
                    m1.tool_names,
                    |n: Seq<char>| ends_with(m1.acc, opening_tag(n)),
                );
                lemma_start_tool_wf(m1, i);
            },
            None => {
                lemma_text_step_wf(m1, pos);
            },
        }
    }
}

/// The byte length of a sequence is that of its first character plus that
/// of the rest.
pub proof fn lemma_utf8_len_first(s: Seq<char>)
    requires
        s.len() > 0,
    ensures
        utf8_len(s) == char_width(s[0]) + utf8_len(s.drop_first()),
{
    assert(s =~= seq![s[0]] + s.drop_first());
    lemma_utf8_len_concat(seq![s[0]], s.drop_first());
    lemma_utf8_len_single(s[0]);
}

/// Reading a fitting chunk keeps the invariant, appends the chunk to the
/// accumulated text, and leaves the configuration and the stream cursor
/// alone.
pub proof fn lemma_feed_wf(m: ParserView, s: Seq<char>)
    requires
        view_wf(m),
        chunk_fits(m, s),
        feed(m, s) is Some,
    ensures
        view_wf(feed(m, s)->0),
        (feed(m, s)->0).acc == m.acc + s,
        (feed(m, s)->0).tool_names == m.tool_names,
        (feed(m, s)->0).param_names == m.param_names,
        (feed(m, s)->0).prefixes == m.prefixes,
        (feed(m, s)->0).cursor == m.cursor,
    decreases s.len(),
{
    if s.len() == 0 {
        assert(m.acc + s =~= m.acc);
    } else {
        lemma_utf8_len_first(s);
        lemma_utf8_len_push(m.acc, s[0]);
        lemma_step_wf(m, s[0]);
        let m2 = step(m, s[0])->0;
        lemma_feed_wf(m2, s.drop_first());
        assert(m.acc.push(s[0]) + s.drop_first() =~= m.acc + s);
    }
}

/// A parser that has read nothing satisfies the invariant.
pub proof fn lemma_initial_wf(m: ParserView)
    requires
        is_initial(m),
    ensures
        view_wf(m),
{
    reveal(blocks_ok);
    reveal(settled);
    reveal(no_adjacent_text);
}

/// Clearing the reading state keeps the invariant.
pub proof fn lemma_reset_wf(m: ParserView)
    ensures
        view_wf(reset(m)),
        is_initial(reset(m)),
{
    lemma_initial_wf(reset(m));
}

/// The text of a block, if it is a text block.
pub open spec fn text_of(b: BlockView) -> Option<Seq<char>> {
    match b {
        BlockView::Text { content, .. } => Some(content),
        BlockView::Tool { .. } => None,
    }
}

/// The bytes of a block's text.
pub open spec fn block_text_bytes(b: BlockView) -> nat {
    match b {
        BlockView::Text { content, .. } => utf8_len(content),
        BlockView::Tool { .. } => 0,
    }
}

/// Two block sequences with the same text blocks in the same places.
pub open spec fn same_texts(b1: Seq<BlockView>, b2: Seq<BlockView>) -> bool {
    &&& b1.len() == b2.len()
    &&& forall|i: int| 0 <= i < b1.len() ==> text_of(#[trigger] b1[i]) == text_of(b2[i])
}

pub proof fn lemma_same_texts_bytes(b1: Seq<BlockView>, b2: Seq<BlockView>)
    requires
        same_texts(b1, b2),
    ensures
        text_bytes(b1) == text_bytes(b2),
    decreases b1.len(),
{
    if b1.len() > 0 {
        assert(text_of(b1[b1.len() - 1]) == text_of(b2[b2.len() - 1]));
        assert forall|i: int| 0 <= i < b1.drop_last().len() implies text_of(
            #[trigger] b1.drop_last()[i],
        ) == text_of(b2.drop_last()[i]) by {
            assert(text_of(b1[i]) == text_of(b2[i]));
        }
        lemma_same_texts_bytes(b1.drop_last(), b2.drop_last());
    }
}

pub proof fn lemma_same_texts_take(b1: Seq<BlockView>, b2: Seq<BlockView>, k: int)
    requires
        same_texts(b1, b2),
        0 <= k <= b1.len(),
    ensures
        same_texts(b1.take(k), b2.take(k)),
{
    assert forall|i: int| 0 <= i < k implies text_of(#[trigger] b1.take(k)[i]) == text_of(
        b2.take(k)[i],
    ) by {
        assert(text_of(b1[i]) == text_of(b2[i]));
    }
}

pub proof fn lemma_text_bytes_push(b: Seq<BlockView>, x: BlockView)
    ensures
        text_bytes(b.push(x)) == text_bytes(b) + block_text_bytes(x),
{
    assert(b.push(x).drop_last() =~= b);
}

pub proof fn lemma_text_bytes_update_last(b: Seq<BlockView>, x: BlockView)
    requires
        b.len() > 0,
    ensures
        text_bytes(b.update(b.len() - 1, x)) == text_bytes(b.drop_last()) + block_text_bytes(x),
        text_bytes(b) == text_bytes(b.drop_last()) + block_text_bytes(b.last()),
        b.update(b.len() - 1, x).take(b.len() - 1) == b.drop_last(),
        b.take(b.len() - 1) == b.drop_last(),
{
    assert(b.update(b.len() - 1, x).drop_last() =~= b.drop_last());
    assert(b.update(b.len() - 1, x).take(b.len() - 1) =~= b.drop_last());
    assert(b.take(b.len() - 1) =~= b.drop_last());
}

/// Setting a tool parameter changes no text block.
proof fn lemma_set_tool_param_texts(m: ParserView, name: Seq<char>, value: Seq<char>)
    requires
        inv_core(m),
        m.tool_block is Some,
    ensures
        same_texts(set_tool_param(m, name, value).blocks, m.blocks),
{
    let r = set_tool_param(m, name, value);
    let ti = m.tool_block->0;
    assert forall|i: int| 0 <= i < r.blocks.len() implies text_of(#[trigger] r.blocks[i]) == text_of(
        m.blocks[i],
    ) by {
        if i != ti {
            assert(r.blocks[i] == m.blocks[i]);
        }
    }
}

/// The steps inside a tool block change no text block.
proof fn lemma_tool_branch_texts(m: ParserView)
    requires
        inv_core(m),
        m.tool_block is Some,
    ensures
        m.param is Some ==> same_texts(param_step(m).0.blocks, m.blocks),
        m.param is None ==> same_texts(tool_step(m).blocks, m.blocks),
{
    if m.param is Some {
        let name = m.param->0;
        let value = m.acc.subrange(m.param_start, m.acc.len() as int);
        if utf8_len(value) > MAX_PARAM_LENGTH {
        } else if ends_with(value, closing_tag(name)) {
            let raw = value.subrange(0, value.len() - closing_tag(name).len());
            lemma_set_tool_param_texts(m, name, normalize_param_value(name, raw));
        } else {
            lemma_set_tool_param_texts(m, name, value);
        }
    } else {
        let ti = m.tool_block->0;
        match m.blocks[ti] {
            BlockView::Tool { name, params, partial } => {
                let body = m.acc.subrange(m.tool_start, m.acc.len() as int);
                if ends_with(body, closing_tag(name)) {
                    let r = tool_step(m);
                    assert forall|i: int| 0 <= i < r.blocks.len() implies text_of(
                        #[trigger] r.blocks[i],
                    ) == text_of(m.blocks[i]) by {
                        if i != ti {
                            assert(r.blocks[i] == m.blocks[i]);
                        }
                    }
                } else {
                    let m2 = match param_tag_match(m) {
                        Some(pi) => ParserView {
                            param: Some(m.param_names[pi]),
                            param_start: m.acc.len() as int,
                            ..m
                        },
                        None => m,
                    };
                    assert(inv_core(m2)) by {
                        if let Some(pi) = param_tag_match(m) {
                            lemma_first_index_some(
                                m.param_names,
                                |p: Seq<char>| ends_with(m.acc, opening_tag(p)),
                            );
                            assert(m.param_names.contains(m.param_names[pi]));
                        }
                    }
                    if name == "write_to_file"@ && ends_with(m.acc, "</content>"@) {
                        let body2 = m2.acc.subrange(m2.tool_start, m2.acc.len() as int);
                        match (find_first(body2, "<content>"@), find_last(body2, "</content>"@)) {
                            (Some(s0), Some(e)) => {
                                let st = s0 + "<content>"@.len();
                                if e > st {
                                    lemma_set_tool_param_texts(
                                        m2,
                                        "content"@,
                                        normalize_param_value("content"@, body2.subrange(st, e)),
                                    );
                                }
                            },
                            _ => {},
                        }
                    }
                }
            },
            BlockView::Text { .. } => {},
        }
    }
}

proof fn lemma_start_tool_bounded(m: ParserView, i: int)
    requires
        inv_core(m),
        text_bytes(m.blocks) <= utf8_len(m.acc),
        m.tool_block is None,
        0 <= i < m.tool_names.len(),
        start_tool(m, i) is Some,
    ensures
        text_bounded(start_tool(m, i)->0),
{
    let name = m.tool_names[i];
    let nb = BlockView::Tool { name, params: Seq::empty(), partial: true };
    match m.text_block {
        None => {
            lemma_text_bytes_push(m.blocks, nb);
        },
        Some(t) => {
            match m.blocks[t] {
                BlockView::Text { content, partial } => {
                    let k = char_index_at_byte(content, kept_bytes(content, name))->0;
                    let tb = BlockView::Text { content: trim(content.take(k)), partial: false };
                    let b1 = m.blocks.update(t, tb);
                    assert(m.blocks.remove(t) =~= m.blocks.drop_last());
                    lemma_text_bytes_push(m.blocks.drop_last(), nb);
                    lemma_text_bytes_update_last(m.blocks, tb);
                    lemma_text_bytes_push(b1, nb);
                    crate::text::lemma_trim_bytes(content.take(k));
                    assert(0 <= k <= content.len());
                    crate::text::lemma_utf8_len_subrange(content, 0, k);
                    assert(content.subrange(0, k) =~= content.take(k));
                },
                BlockView::Tool { .. } => {
                    lemma_text_bytes_push(m.blocks, nb);
                },
            }
        },
    }
}

proof fn lemma_text_step_bounded(m: ParserView, pos: int)
    requires
        inv_core(m),
        m.tool_block is None,
        pos == m.acc.len() - 1,
        0 <= pos,
        text_bytes(m.blocks) <= utf8_len(m.acc.take(pos)),
        m.text_block matches Some(t) ==> text_bytes(m.blocks.take(t)) <= utf8_len(
            m.acc.take(m.text_start),
        ),
    ensures
        text_bounded(text_step(m, pos)),
{
    let acc = m.acc;
    match m.text_block {
        Some(t) => {
            let c = trim(acc.subrange(m.text_start, acc.len() as int));
            match m.blocks[t] {
                BlockView::Text { content, partial } => {
                    let tb = BlockView::Text { content: c, partial };
                    lemma_text_bytes_update_last(m.blocks, tb);
                    crate::text::lemma_trim_bytes(acc.subrange(m.text_start, acc.len() as int));
                    assert(acc =~= acc.take(m.text_start) + acc.subrange(m.text_start, acc.len() as int));
                    lemma_utf8_len_concat(acc.take(m.text_start), acc.subrange(m.text_start, acc.len() as int));
                },
                BlockView::Tool { .. } => {},
            }
        },
        None => {
            let c = trim(acc.subrange(pos, acc.len() as int));
            let tb = BlockView::Text { content: c, partial: true };
            lemma_text_bytes_push(m.blocks, tb);
            crate::text::lemma_trim_bytes(acc.subrange(pos, acc.len() as int));
            assert(acc =~= acc.take(pos) + acc.subrange(pos, acc.len() as int));
            lemma_utf8_len_concat(acc.take(pos), acc.subrange(pos, acc.len() as int));
            assert(m.blocks.push(tb).take(m.blocks.len() as int) =~= m.blocks);
        },
    }
}

/// Reading a character keeps the text within the bytes read.
proof fn lemma_step_bounded(m: ParserView, ch: char)
    requires
        view_wf(m),
        utf8_len(m.acc.push(ch)) <= MAX_ACCUMULATOR_SIZE,
        step(m, ch) is Some,
    ensures
        text_bounded(step(m, ch)->0),
{
    let pos = m.acc.len() as int;
    let m1 = ParserView { acc: m.acc.push(ch), ..m };
    lemma_push_acc(m, ch);
    lemma_utf8_len_push(m.acc, ch);
    assert(m1.acc.take(pos) =~= m.acc);
    if m1.tool_block is Some && m1.param is Some {
        lemma_param_step_core(m1);
        lemma_tool_branch_texts(m1);
        let (m2, handled) = param_step(m1);
        lemma_same_texts_bytes(m2.blocks, m.blocks);
        if !handled {
            lemma_tool_branch_texts(m2);
            lemma_same_texts_bytes(tool_step(m2).blocks, m2.blocks);
            lemma_tool_step_core(m2);
        }
    } else if m1.tool_block is Some {
        lemma_tool_branch_texts(m1);
        lemma_same_texts_bytes(tool_step(m1).blocks, m.blocks);
        lemma_tool_step_core(m1);
    } else {
        match tool_tag_match(m1) {
            Some(i) => {
                lemma_first_index_some(
                    m1.tool_names,
                    |n: Seq<char>| ends_with(m1.acc, opening_tag(n)),
                );
                lemma_start_tool_bounded(m1, i);
            },
            None => {
                if let Some(t) = m.text_block {
                    assert(m1.acc.take(m.text_start) =~= m.acc.take(m.text_start));
                }
                lemma_text_step_bounded(m1, pos);
            },
        }
    }
}

/// Marking every block complete changes no text: text blocks are already
/// trimmed.
proof fn lemma_finalize_texts(m: ParserView)
    requires
        view_wf(m),
    ensures
        forall|i: int|
            0 <= i < m.blocks.len() ==> match (#[trigger] m.blocks[i]) {
                BlockView::Text { content, .. } => finalize(m).blocks[i] == BlockView::Text {
                    content,
                    partial: false,
                },
                BlockView::Tool { name, params, .. } => finalize(m).blocks[i] == BlockView::Tool {
                    name,
                    params,
                    partial: false,
                },
            },
{
    let r = finalize(m);
    assert forall|i: int| 0 <= i < m.blocks.len() implies match (#[trigger] m.blocks[i]) {
        BlockView::Text { content, .. } => r.blocks[i] == BlockView::Text { content, partial: false },
        BlockView::Tool { name, params, .. } => r.blocks[i] == BlockView::Tool {
            name,
            params,
            partial: false,
        },
    } by {
        lemma_blocks_ok_at(m.tool_names, m.param_names, m.blocks, i);
        match m.blocks[i] {
            BlockView::Text { content, .. } => {
                lemma_trim_of_trimmed(content);
            },
            BlockView::Tool { .. } => {},
        }
    }
}

/// Marking every block complete keeps the invariant and changes no text.
pub proof fn lemma_finalize_wf(m: ParserView)
    requires
        view_wf(m),
    ensures
        view_wf(finalize(m)),
        forall|i: int|
            0 <= i < m.blocks.len() ==> match (#[trigger] m.blocks[i]) {
                BlockView::Text { content, .. } => finalize(m).blocks[i] == BlockView::Text {
                    content,
                    partial: false,
                },
                BlockView::Tool { name, params, .. } => finalize(m).blocks[i] == BlockView::Tool {
                    name,
                    params,
                    partial: false,
                },
            },
{
    lemma_finalize_texts(m);
    let r = finalize(m);
    let n = m.blocks.len() as int;
    assert forall|i: int| 0 <= i < n implies (#[trigger] r.blocks[i] is Text) == (m.blocks[i] is Text)
        && text_of(r.blocks[i]) == text_of(m.blocks[i]) && !r.blocks[i].is_partial() by {
        assert(match m.blocks[i] {
            BlockView::Text { content, .. } => r.blocks[i] == BlockView::Text { content, partial: false },
            BlockView::Tool { name, params, .. } => r.blocks[i] == BlockView::Tool {
                name,
                params,
                partial: false,
            },
        });
    }
    assert(same_texts(r.blocks, m.blocks));
    lemma_same_texts_bytes(r.blocks, m.blocks);
    if let Some(t) = m.text_block {
        lemma_same_texts_take(r.blocks, m.blocks, t);
        lemma_same_texts_bytes(r.blocks.take(t), m.blocks.take(t));
    }
    reveal(blocks_ok);
    reveal(settled);
    reveal(no_adjacent_text);
    assert forall|i: int| 0 <= i < n implies block_ok(r.tool_names, r.param_names, #[trigger] r.blocks[i])
        by {
        assert(block_ok(m.tool_names, m.param_names, m.blocks[i]));
        assert(match m.blocks[i] {
            BlockView::Text { content, .. } => r.blocks[i] == BlockView::Text { content, partial: false },
            BlockView::Tool { name, params, .. } => r.blocks[i] == BlockView::Tool {
                name,
                params,
                partial: false,
            },
        });
    }
    assert forall|i: int| 0 <= i < n - 1 implies !(#[trigger] r.blocks[i] is Text && r.blocks[i + 1] is Text)
        by {
        assert(!(m.blocks[i] is Text && m.blocks[i + 1] is Text));
        assert((r.blocks[i + 1] is Text) == (m.blocks[i + 1] is Text) && text_of(r.blocks[i + 1]) == text_of(m.blocks[i + 1]) && !r.blocks[i + 1].is_partial());
    }
    if let Some(t) = m.text_block {
        assert(match m.blocks[t] {
            BlockView::Text { content, .. } => r.blocks[t] == BlockView::Text { content, partial: false },
            BlockView::Tool { name, params, .. } => r.blocks[t] == BlockView::Tool {
                name,
                params,
                partial: false,
            },
        });
    }
}

/// Text parts of a prefix of the blocks, one block longer.
pub proof fn lemma_text_parts_take(b: Seq<BlockView>, i: int)
    requires
        0 <= i < b.len(),
    ensures
        text_parts(b.take(i + 1)) == match b[i] {
            BlockView::Text { content, .. } => text_parts(b.take(i)).push(content),
            BlockView::Tool { .. } => text_parts(b.take(i)),
        },
        text_bytes(b.take(i + 1)) == text_bytes(b.take(i)) + block_text_bytes(b[i]),
{
    assert(b.take(i + 1).drop_last() =~= b.take(i));
    assert(b.take(i + 1).last() == b[i]);
}

/// Joining one more part.
pub proof fn lemma_join_push(parts: Seq<Seq<char>>, c: Seq<char>)
    ensures
        join_spaced(parts.push(c)) == if parts.len() == 0 {
            c
        } else {
            join_spaced(parts) + seq![' '] + c
        },
{
    let p = parts.push(c);
    assert(p.drop_last() =~= parts);
    assert(p.last() == c);
    if parts.len() == 0 {
        assert(p[0] == c);
    }
}

/// The joined text has at most one byte per block beyond the text blocks'
/// bytes.
pub proof fn lemma_joined_bytes(b: Seq<BlockView>)
    ensures
        utf8_len(join_spaced(text_parts(b))) <= text_bytes(b) + b.len(),
    decreases b.len(),
{
    if b.len() > 0 {
        lemma_joined_bytes(b.drop_last());
        let parts = text_parts(b.drop_last());
        match b.last() {
            BlockView::Text { content, .. } => {
                lemma_join_push(parts, content);
                if parts.len() > 0 {
                    lemma_utf8_len_concat(join_spaced(parts), seq![' ']);
                    lemma_utf8_len_concat(join_spaced(parts) + seq![' '], content);
                    lemma_utf8_len_single(' ');
                }
            },
            BlockView::Tool { .. } => {},
        }
    }
}

/// In a reachable state the joined text has at most twice the size limit in
/// bytes.
pub proof fn lemma_joined_text_bound(m: ParserView)
    requires
        view_wf(m),
    ensures
        utf8_len(joined_text(m)) <= 2 * MAX_ACCUMULATOR_SIZE,
{
    lemma_joined_bytes(m.blocks);
    crate::text::lemma_utf8_len_ge_len(m.acc);
}

} // verus!
