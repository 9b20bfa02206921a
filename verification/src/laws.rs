//! Properties of the parser that hold across calls.
use vstd::prelude::*;
use crate::blocks::{BlockView, ParamsView, keys_unique, params_get, params_set, key_position,
    is_first_key_position, lemma_key_position_found, lemma_params_set_unique};
use crate::model::{ParserView, view_wf, step, feed, chunk_fits, param_step, tool_step, start_tool,
    text_step, tool_tag_match, set_tool_param, param_tag_match, finalize, reset, is_initial,
    inv_core, blocks_ok, block_ok, settled, no_adjacent_text, opening_tag, is_first_index, joined_text, held_prefix,
    stream_end, has_next_chunk, MAX_ACCUMULATOR_SIZE, lemma_first_index_found,
    lemma_first_index_exists, lemma_first_index_none, first_index, closing_tag, lemma_finalize_wf,
    lemma_step_wf, lemma_utf8_len_first};
use crate::text::{utf8_len, is_trimmed, trim, ends_with, lemma_utf8_len_concat};
use crate::model::{occurs_at, stream_end_index, last_block_text_surely, MAX_PARAM_LENGTH};
use crate::blocks::{params_xml, tool_xml};
use crate::tools::{unsorted_default_prefixes, tag_prefix_shape, lemma_prefixes_shape};

verus! {

// ---------------------------------------------------------------------
// Streaming in chunks
// ---------------------------------------------------------------------

/// Reading a character appends it to the accumulated text.
proof fn lemma_step_acc(m: ParserView, ch: char)
    requires
        step(m, ch) is Some,
    ensures
        (step(m, ch)->0).acc == m.acc.push(ch),
{
}

/// Reading a chunk appends it to the accumulated text.
pub proof fn law_feed_appends(m: ParserView, s: Seq<char>)
    requires
        feed(m, s) is Some,
    ensures
        (feed(m, s)->0).acc == m.acc + s,
    decreases s.len(),
{
    if s.len() == 0 {
        assert(m.acc + s =~= m.acc);
    } else {
        lemma_step_acc(m, s[0]);
        let m2 = step(m, s[0])->0;
        law_feed_appends(m2, s.drop_first());
        assert(m.acc.push(s[0]) + s.drop_first() =~= m.acc + s);
    }
}

/// Feeding `a` and then `b` is feeding `a + b`: how a message is cut into
/// chunks does not change what is parsed.
pub proof fn law_chunks_compose(m: ParserView, a: Seq<char>, b: Seq<char>)
    ensures
        feed(m, a + b) == match feed(m, a) {
            Some(m1) => feed(m1, b),
            None => None,
        },
    decreases a.len(),
{
    if a.len() == 0 {
        assert(a + b =~= b);
    } else {
        assert((a + b)[0] == a[0]);
        assert((a + b).drop_first() =~= a.drop_first() + b);
        match step(m, a[0]) {
            Some(m2) => {
                law_chunks_compose(m2, a.drop_first(), b);
            },
            None => {},
        }
    }
}

/// Whether a chunk fits is decided by the whole message: `a + b` fits
/// exactly when `b` fits after `a`, and then `a` fits too.
pub proof fn law_chunks_fit(m: ParserView, a: Seq<char>, b: Seq<char>)
    requires
        feed(m, a) is Some,
    ensures
        chunk_fits(m, a + b) == chunk_fits(feed(m, a)->0, b),
        chunk_fits(m, a + b) ==> chunk_fits(m, a),
{
    law_feed_appends(m, a);
    lemma_utf8_len_concat(a, b);
    lemma_utf8_len_concat(m.acc, a);
}

// ---------------------------------------------------------------------
// Blocks already emitted
// ---------------------------------------------------------------------

/// Blocks `m` and `r` agree on all but the last of `m`'s blocks, and `r`
/// has at least as many; with no current block, on all of them, and `r`
/// has more.
pub open spec fn blocks_kept(m: ParserView, r: ParserView) -> bool {
    let n = m.blocks.len() as int;
    &&& r.blocks.len() >= n
    &&& forall|i: int| 0 <= i < n - 1 ==> r.blocks[i] == #[trigger] m.blocks[i]
    &&& (m.text_block is None && m.tool_block is None ==> r.blocks.len() > n && forall|i: int|
        0 <= i < n ==> r.blocks[i] == #[trigger] m.blocks[i])
}

proof fn lemma_set_tool_param_kept(m: ParserView, name: Seq<char>, value: Seq<char>)
    requires
        inv_core(m),
        m.tool_block is Some,
    ensures
        blocks_kept(m, set_tool_param(m, name, value)),
        set_tool_param(m, name, value).tool_block == m.tool_block,
        set_tool_param(m, name, value).blocks.len() == m.blocks.len(),
{
}

proof fn lemma_tool_branch_kept(m: ParserView)
    requires
        inv_core(m),
        m.tool_block is Some,
    ensures
        m.param is Some ==> blocks_kept(m, param_step(m).0) && param_step(m).0.tool_block
            == m.tool_block && param_step(m).0.blocks.len() == m.blocks.len(),
        m.param is None ==> blocks_kept(m, tool_step(m)) && tool_step(m).blocks.len()
            == m.blocks.len(),
{
    if m.param is Some {
        let name = m.param->0;
        let value = m.acc.subrange(m.param_start, m.acc.len() as int);
        if utf8_len(value) > crate::model::MAX_PARAM_LENGTH {
        } else if crate::text::ends_with(value, crate::model::closing_tag(name)) {
            let raw = value.subrange(0, value.len() - crate::model::closing_tag(name).len());
            lemma_set_tool_param_kept(m, name, crate::model::normalize_param_value(name, raw));
        } else {
            lemma_set_tool_param_kept(m, name, value);
        }
    } else {
        let ti = m.tool_block->0;
        match m.blocks[ti] {
            BlockView::Tool { name, params, partial } => {
                let body = m.acc.subrange(m.tool_start, m.acc.len() as int);
                if crate::text::ends_with(body, crate::model::closing_tag(name)) {
                } else {
                    let m2 = match param_tag_match(m) {
                        Some(pi) => ParserView {
                            param: Some(m.param_names[pi]),
                            param_start: m.acc.len() as int,
                            ..m
                        },
                        None => m,
                    };
                    assert(inv_core(m2)) by {
                        if let Some(pi) = param_tag_match(m) {
                            crate::model::lemma_first_index_some(
                                m.param_names,
                                |p: Seq<char>|
                                    crate::text::ends_with(m.acc, crate::model::opening_tag(p)),
                            );
                            assert(m.param_names.contains(m.param_names[pi]));
                        }
                    }
                    let body2 = m2.acc.subrange(m2.tool_start, m2.acc.len() as int);
                    match (
                        crate::model::find_first(body2, "<content>"@),
                        crate::model::find_last(body2, "</content>"@),
                    ) {
                        (Some(s0), Some(e)) => {
                            let st = s0 + "<content>"@.len();
                            if e > st {
                                lemma_set_tool_param_kept(
                                    m2,
                                    "content"@,
                                    crate::model::normalize_param_value(
                                        "content"@,
                                        body2.subrange(st, e),
                                    ),
                                );
                            }
                        },
                        _ => {},
                    }
                }
            },
            BlockView::Text { .. } => {},
        }
    }
}

/// Reading a character that fits changes at most the last block and never
/// removes a block; with no current block, it only appends.
proof fn lemma_step_keeps_blocks(m: ParserView, ch: char)
    requires
        view_wf(m),
        utf8_len(m.acc.push(ch)) <= MAX_ACCUMULATOR_SIZE,
        step(m, ch) is Some,
    ensures
        blocks_kept(m, step(m, ch)->0),
{
    let pos = m.acc.len() as int;
    let m1 = ParserView { acc: m.acc.push(ch), ..m };
    crate::model::lemma_push_acc(m, ch);
    if m1.tool_block is Some && m1.param is Some {
        lemma_tool_branch_kept(m1);
        let (m2, handled) = param_step(m1);
        if !handled {
            crate::model::lemma_param_step_core(m1);
            lemma_tool_branch_kept(m2);
        }
    } else if m1.tool_block is Some {
        lemma_tool_branch_kept(m1);
    } else {
        let r = step(m, ch)->0;
        match tool_tag_match(m1) {
            Some(i) => {
                assert(r == start_tool(m1, i)->0);
                if let Some(t) = m1.text_block {
                    assert forall|j: int| 0 <= j < m.blocks.len() - 1 implies r.blocks[j]
                        == #[trigger] m.blocks[j] by {
                        assert(m.blocks.remove(t)[j] == m.blocks[j]);
                    }
                }
            },
            None => {
                assert(r == text_step(m1, pos));
            },
        }
    }
}

/// Feeding a chunk never removes a block, and leaves every block that is
/// not being read (every block but the current text or tool block, which
/// is always the last) as it was.
pub proof fn law_feed_keeps_blocks(m: ParserView, s: Seq<char>)
    requires
        view_wf(m),
        chunk_fits(m, s),
        feed(m, s) is Some,
    ensures
        (feed(m, s)->0).blocks.len() >= m.blocks.len(),
        forall|i: int|
            0 <= i < m.blocks.len() - 1 ==> (feed(m, s)->0).blocks[i] == #[trigger] m.blocks[i],
        forall|i: int|
            0 <= i < m.blocks.len() && m.text_block != Some(i) && m.tool_block != Some(i)
                ==> (feed(m, s)->0).blocks[i] == #[trigger] m.blocks[i],
    decreases s.len(),
{
    if s.len() > 0 {
        lemma_utf8_len_first(s);
        crate::text::lemma_utf8_len_push(m.acc, s[0]);
        lemma_step_keeps_blocks(m, s[0]);
        lemma_step_wf(m, s[0]);
        let m2 = step(m, s[0])->0;
        law_feed_keeps_blocks(m2, s.drop_first());
        let r = feed(m, s)->0;
        assert forall|i: int|
            0 <= i < m.blocks.len() && m.text_block != Some(i) && m.tool_block != Some(i)
                implies r.blocks[i] == #[trigger] m.blocks[i] by {
            assert(m2.blocks[i] == m.blocks[i]);
            assert(i < m2.blocks.len() - 1);
            assert(r.blocks[i] == m2.blocks[i]);
        }
    }
}

/// The current text or tool block, if any, is partial. This holds of every
/// state reached from a new or reset parser without finalizing.
pub open spec fn current_partial(m: ParserView) -> bool {
    &&& (m.text_block matches Some(t) ==> m.blocks[t].is_partial())
    &&& (m.tool_block matches Some(t) ==> m.blocks[t].is_partial())
}

/// A new or reset parser has no current block.
pub proof fn law_initial_current_partial(m: ParserView)
    ensures
        is_initial(m) ==> current_partial(m),
        current_partial(reset(m)),
{
}

proof fn lemma_set_tool_param_partial(m: ParserView, name: Seq<char>, value: Seq<char>)
    requires
        inv_core(m),
        current_partial(m),
        m.tool_block is Some,
    ensures
        current_partial(set_tool_param(m, name, value)),
{
}

proof fn lemma_tool_step_partial(m: ParserView)
    requires
        inv_core(m),
        current_partial(m),
        m.tool_block is Some,
        m.param is None,
    ensures
        current_partial(tool_step(m)),
{
    let ti = m.tool_block->0;
    match m.blocks[ti] {
        BlockView::Tool { name, params, partial } => {
            let body = m.acc.subrange(m.tool_start, m.acc.len() as int);
            if !crate::text::ends_with(body, closing_tag(name)) {
                let m2 = match param_tag_match(m) {
                    Some(pi) => ParserView {
                        param: Some(m.param_names[pi]),
                        param_start: m.acc.len() as int,
                        ..m
                    },
                    None => m,
                };
                let body2 = m2.acc.subrange(m2.tool_start, m2.acc.len() as int);
                match (
                    crate::model::find_first(body2, "<content>"@),
                    crate::model::find_last(body2, "</content>"@),
                ) {
                    (Some(s0), Some(e)) => {
                        let st = s0 + "<content>"@.len();
                        if e > st {
                            lemma_set_tool_param_partial(
                                m2,
                                "content"@,
                                crate::model::normalize_param_value("content"@, body2.subrange(st, e)),
                            );
                        }
                    },
                    _ => {},
                }
            }
        },
        BlockView::Text { .. } => {},
    }
}

proof fn lemma_step_current_partial(m: ParserView, ch: char)
    requires
        view_wf(m),
        current_partial(m),
        utf8_len(m.acc.push(ch)) <= MAX_ACCUMULATOR_SIZE,
        step(m, ch) is Some,
    ensures
        current_partial(step(m, ch)->0),
{
    let pos = m.acc.len() as int;
    let m1 = ParserView { acc: m.acc.push(ch), ..m };
    crate::model::lemma_push_acc(m, ch);
    if m1.tool_block is Some && m1.param is Some {
        let name = m1.param->0;
        let value = m1.acc.subrange(m1.param_start, m1.acc.len() as int);
        if utf8_len(value) > crate::model::MAX_PARAM_LENGTH {
            let m2 = param_step(m1).0;
            lemma_tool_step_partial(m2);
        } else if crate::text::ends_with(value, closing_tag(name)) {
            let raw = value.subrange(0, value.len() - closing_tag(name).len());
            lemma_set_tool_param_partial(m1, name, crate::model::normalize_param_value(name, raw));
        } else {
            lemma_set_tool_param_partial(m1, name, value);
        }
    } else if m1.tool_block is Some {
        lemma_tool_step_partial(m1);
    } else {
        let r = step(m, ch)->0;
        match tool_tag_match(m1) {
            Some(i) => {
                assert(r == start_tool(m1, i)->0);
            },
            None => {
                assert(r == text_step(m1, pos));
            },
        }
    }
}

/// From a state whose current block is partial (one reached without
/// finalizing), feeding a chunk keeps the current block partial, never
/// removes a block, and never changes a completed block again.
pub proof fn law_feed_keeps_completed(m: ParserView, s: Seq<char>)
    requires
        view_wf(m),
        current_partial(m),
        chunk_fits(m, s),
        feed(m, s) is Some,
    ensures
        current_partial(feed(m, s)->0),
        (feed(m, s)->0).blocks.len() >= m.blocks.len(),
        forall|i: int|
            0 <= i < m.blocks.len() && !m.blocks[i].is_partial() ==> (feed(m, s)->0).blocks[i]
                == #[trigger] m.blocks[i],
    decreases s.len(),
{
    law_feed_keeps_blocks(m, s);
    assert forall|i: int| 0 <= i < m.blocks.len() && !m.blocks[i].is_partial() implies
        m.text_block != Some(i) && m.tool_block != Some(i) by {}
    if s.len() > 0 {
        lemma_utf8_len_first(s);
        crate::text::lemma_utf8_len_push(m.acc, s[0]);
        lemma_step_current_partial(m, s[0]);
        lemma_step_wf(m, s[0]);
        let m2 = step(m, s[0])->0;
        law_feed_keeps_completed(m2, s.drop_first());
    }
}

// ---------------------------------------------------------------------
// Shape of the blocks
// ---------------------------------------------------------------------

/// In every reachable state: each tool block names a configured tool and
/// has unique parameter keys, each a configured parameter name or
/// `content`; each text block is trimmed; every block but the last is
/// complete; no two text blocks are adjacent.
pub proof fn law_block_shape(m: ParserView, i: int)
    requires
        view_wf(m),
        0 <= i < m.blocks.len(),
    ensures
        match m.blocks[i] {
            BlockView::Tool { name, params, .. } => {
                &&& m.tool_names.contains(name)
                &&& keys_unique(params)
                &&& forall|k: int|
                    0 <= k < params.len() ==> m.param_names.contains(#[trigger] params[k].0)
                        || params[k].0 == "content"@
            },
            BlockView::Text { content, .. } => is_trimmed(content) && trim(content) == content,
        },
        i < m.blocks.len() - 1 ==> !m.blocks[i].is_partial(),
        i < m.blocks.len() - 1 ==> !(m.blocks[i] is Text && m.blocks[i + 1] is Text),
{
    reveal(blocks_ok);
    reveal(settled);
    reveal(no_adjacent_text);
    assert(block_ok(m.tool_names, m.param_names, m.blocks[i]));
    match m.blocks[i] {
        BlockView::Text { content, .. } => {
            crate::text::lemma_trim_of_trimmed(content);
        },
        BlockView::Tool { .. } => {},
    }
}

/// In every reachable state, the current text block, if any, is the last
/// block and holds the trimmed text read since it started.
pub proof fn law_current_text_block(m: ParserView)
    requires
        view_wf(m),
        m.text_block is Some,
    ensures
        m.text_block == Some(m.blocks.len() - 1),
        m.blocks.last() matches BlockView::Text { content, .. } && content == trim(
            m.acc.subrange(m.text_start, m.acc.len() as int),
        ),
{
}

// ---------------------------------------------------------------------
// Opening a tool
// ---------------------------------------------------------------------

/// A character that completes the opening tag of a configured tool (the
/// first such tool, outside any tool block) closes the current text block,
/// dropping it when nothing of it remains once the partial tag is cut, and
/// appends a partial block for that tool with no parameters; every earlier
/// block is then complete and no block but the closed text block changes.
pub proof fn law_tool_tag_opens_block(m: ParserView, ch: char, i: int)
    requires
        view_wf(m),
        m.tool_block is None,
        utf8_len(m.acc.push(ch)) <= MAX_ACCUMULATOR_SIZE,
        0 <= i < m.tool_names.len(),
        ends_with(m.acc.push(ch), opening_tag(m.tool_names[i])),
        forall|j: int|
            0 <= j < i ==> !ends_with(m.acc.push(ch), opening_tag(#[trigger] m.tool_names[j])),
        step(m, ch) is Some,
    ensures
        (step(m, ch)->0).blocks.last() == (BlockView::Tool {
            name: m.tool_names[i],
            params: Seq::empty(),
            partial: true,
        }),
        (step(m, ch)->0).tool_block == Some((step(m, ch)->0).blocks.len() - 1),
        (step(m, ch)->0).text_block is None,
        forall|j: int|
            0 <= j < (step(m, ch)->0).blocks.len() - 1 ==> !(#[trigger] (step(
                m,
                ch,
            )->0).blocks[j]).is_partial(),
        forall|j: int| 0 <= j < m.blocks.len() - 1 ==> (step(m, ch)->0).blocks[j] == #[trigger] m.blocks[j],
        m.text_block is None ==> (step(m, ch)->0).blocks.drop_last() == m.blocks,
        m.text_block is Some ==> (step(m, ch)->0).blocks.len() == m.blocks.len() || (step(
            m,
            ch,
        )->0).blocks.len() == m.blocks.len() + 1,
        m.text_block is Some && (step(m, ch)->0).blocks.len() == m.blocks.len() + 1 ==> (step(
            m,
            ch,
        )->0).blocks[m.blocks.len() - 1] is Text && (step(m, ch)->0).blocks[m.blocks.len()
            - 1]->Text_content.len() > 0,
{
    let m1 = ParserView { acc: m.acc.push(ch), ..m };
    let f = |n: Seq<char>| ends_with(m1.acc, opening_tag(n));
    assert(is_first_index(m1.tool_names, f, i));
    lemma_first_index_found(m1.tool_names, f, i);
    assert(tool_tag_match(m1) == Some(i));
    lemma_step_wf(m, ch);
    let r = step(m, ch)->0;
    assert(r == start_tool(m1, i)->0);
    reveal(settled);
    if let Some(t) = m.text_block {
        assert forall|j: int| 0 <= j < m.blocks.len() - 1 implies r.blocks[j] == #[trigger] m.blocks[j] by {
            assert(m.blocks.remove(t)[j] == m.blocks[j]);
        }
    } else {
        assert(r.blocks.drop_last() =~= m.blocks);
    }
}

/// Outside a tool block, reading a character opens a tool block exactly when
/// the opening tag of a configured tool then ends the text read.
pub proof fn law_tool_opens_iff_configured(m: ParserView, ch: char)
    requires
        view_wf(m),
        m.tool_block is None,
        utf8_len(m.acc.push(ch)) <= MAX_ACCUMULATOR_SIZE,
        step(m, ch) is Some,
    ensures
        (step(m, ch)->0).tool_block is Some <==> exists|i: int|
            0 <= i < m.tool_names.len() && ends_with(
                m.acc.push(ch),
                opening_tag(#[trigger] m.tool_names[i]),
            ),
{
    let m1 = ParserView { acc: m.acc.push(ch), ..m };
    let f = |n: Seq<char>| ends_with(m1.acc, opening_tag(n));
    lemma_step_wf(m, ch);
    let r = step(m, ch)->0;
    if exists|i: int| 0 <= i < m.tool_names.len() && ends_with(m.acc.push(ch), opening_tag(#[trigger] m.tool_names[i])) {
        let i = choose|i: int| 0 <= i < m.tool_names.len() && ends_with(m.acc.push(ch), opening_tag(#[trigger] m.tool_names[i]));
        assert(f(m1.tool_names[i]));
        lemma_first_index_exists(m1.tool_names, f, i);
        let k = tool_tag_match(m1)->0;
        assert(r == start_tool(m1, k)->0);
    } else {
        assert forall|j: int| 0 <= j < m1.tool_names.len() implies !f(#[trigger] m1.tool_names[j]) by {
            if f(m1.tool_names[j]) {
                assert(ends_with(m.acc.push(ch), opening_tag(m.tool_names[j])));
            }
        }
        lemma_first_index_none(m1.tool_names, f);
        assert(r == text_step(m1, m.acc.len() as int));
    }
}

/// Inside a tool block with no parameter open, reading a character that does
/// not close the tool opens a parameter exactly when the opening tag of a
/// configured parameter name then ends the text read; it is the first such
/// name, and its value starts after the tag. A character that closes the tool
/// leaves no tool block and no parameter open.
pub proof fn law_param_opens_iff_configured(m: ParserView, ch: char)
    requires
        view_wf(m),
        m.tool_block is Some,
        m.param is None,
        utf8_len(m.acc.push(ch)) <= MAX_ACCUMULATOR_SIZE,
    ensures
        step(m, ch) is Some,
        ({
            let acc = m.acc.push(ch);
            let body = acc.subrange(m.tool_start, acc.len() as int);
            let name = m.blocks[m.tool_block->0]->Tool_name;
            let r = step(m, ch)->0;
            &&& ends_with(body, closing_tag(name)) ==> r.tool_block is None && r.param is None
            &&& !ends_with(body, closing_tag(name)) ==> r.tool_block == m.tool_block && (r.param is Some
                <==> exists|k: int|
                0 <= k < m.param_names.len() && ends_with(acc, opening_tag(#[trigger] m.param_names[k])))
            &&& r.param matches Some(p) ==> r.param_start == acc.len() && is_first_index(
                m.param_names,
                |q: Seq<char>| ends_with(acc, opening_tag(q)),
                first_index(m.param_names, |q: Seq<char>| ends_with(acc, opening_tag(q)))->0,
            ) && p == m.param_names[first_index(
                m.param_names,
                |q: Seq<char>| ends_with(acc, opening_tag(q)),
            )->0]
        }),
{
    let m1 = ParserView { acc: m.acc.push(ch), ..m };
    let acc = m1.acc;
    let f = |q: Seq<char>| ends_with(acc, opening_tag(q));
    let r = step(m, ch)->0;
    assert(r == tool_step(m1));
    let ti = m.tool_block->0;
    assert(m.blocks[ti] is Tool);
    if exists|k: int| 0 <= k < m.param_names.len() && ends_with(acc, opening_tag(#[trigger] m.param_names[k])) {
        let k = choose|k: int| 0 <= k < m.param_names.len() && ends_with(acc, opening_tag(#[trigger] m.param_names[k]));
        assert(f(m1.param_names[k]));
        lemma_first_index_exists(m1.param_names, f, k);
        crate::model::lemma_first_index_some(m1.param_names, f);
        assert(param_tag_match(m1) == first_index(m.param_names, f));
    } else {
        assert forall|j: int| 0 <= j < m1.param_names.len() implies !f(#[trigger] m1.param_names[j]) by {
            if f(m1.param_names[j]) {
                assert(ends_with(acc, opening_tag(m.param_names[j])));
            }
        }
        lemma_first_index_none(m1.param_names, f);
        assert(param_tag_match(m1) == first_index(m.param_names, f));
    }
}

// ---------------------------------------------------------------------
// Finalizing and resetting
// ---------------------------------------------------------------------

/// After `finalize`, no block is partial, every block keeps its kind and
/// contents, and finalizing again changes nothing.
pub proof fn law_finalize(m: ParserView)
    requires
        view_wf(m),
    ensures
        finalize(m).blocks.len() == m.blocks.len(),
        forall|i: int| 0 <= i < m.blocks.len() ==> !(#[trigger] finalize(m).blocks[i]).is_partial(),
        forall|i: int|
            0 <= i < m.blocks.len() ==> match (#[trigger] m.blocks[i]) {
                BlockView::Text { content, .. } => finalize(m).blocks[i] == BlockView::Text {
                    content,
                    partial: false,
                },
                BlockView::Tool { name, params, .. } => finalize(m).blocks[i] == BlockView::Tool {
                    name,
                    params,
                    partial: false,
                },
            },
        finalize(finalize(m)) == finalize(m),
{
    lemma_finalize_wf(m);
    let r = finalize(m);
    assert forall|i: int| 0 <= i < m.blocks.len() implies !(#[trigger] r.blocks[i]).is_partial() by {
        assert(match m.blocks[i] {
            BlockView::Text { content, .. } => r.blocks[i] == BlockView::Text { content, partial: false },
            BlockView::Tool { name, params, .. } => r.blocks[i] == BlockView::Tool {
                name,
                params,
                partial: false,
            },
        });
    }
    lemma_finalize_wf(r);
    let r2 = finalize(r);
    assert forall|i: int| 0 <= i < r.blocks.len() implies r2.blocks[i] == r.blocks[i] by {
        assert(match r.blocks[i] {
            BlockView::Text { content, .. } => r2.blocks[i] == BlockView::Text { content, partial: false },
            BlockView::Tool { name, params, .. } => r2.blocks[i] == BlockView::Tool {
                name,
                params,
                partial: false,
            },
        });
        assert(match m.blocks[i] {
            BlockView::Text { content, .. } => r.blocks[i] == BlockView::Text { content, partial: false },
            BlockView::Tool { name, params, .. } => r.blocks[i] == BlockView::Tool {
                name,
                params,
                partial: false,
            },
        });
    }
    assert(r2.blocks =~= r.blocks);
}

/// A reset parser is a fresh parser with the same configuration: whatever
/// it reads next, it reads as a new one would.
pub proof fn law_reset_is_fresh(m: ParserView, fresh: ParserView, s: Seq<char>)
    requires
        is_initial(fresh),
        fresh.tool_names == m.tool_names,
        fresh.param_names == m.param_names,
        fresh.prefixes == m.prefixes,
    ensures
        reset(m) == fresh,
        feed(reset(m), s) == feed(fresh, s),
{
    assert(reset(m).blocks =~= fresh.blocks);
    assert(reset(m).acc =~= fresh.acc);
}

// ---------------------------------------------------------------------
// Tool parameters
// ---------------------------------------------------------------------

/// Reading a parameter gives back what was last written under its key, and
/// writing one key leaves the others as they were.
pub proof fn law_params_read_after_write(ps: ParamsView, k: Seq<char>, v: Seq<char>, k2: Seq<char>)
    requires
        keys_unique(ps),
    ensures
        params_get(params_set(ps, k, v), k) == Some(v),
        keys_unique(params_set(ps, k, v)),
        k2 != k ==> params_get(params_set(ps, k, v), k2) == params_get(ps, k2),
        params_set(ps, k, v).len() == ps.len() + if params_get(ps, k) is Some { 0int } else { 1int },
{
    lemma_params_set_unique(ps, k, v);
    let r = params_set(ps, k, v);
    if k2 != k {
        match key_position(ps, k2) {
            Some(j) => {
                assert(is_first_key_position(ps, k2, j));
                assert(r[j] == ps[j]);
                assert forall|j2: int| 0 <= j2 < j implies r[j2].0 != k2 by {
                    if r[j2].0 != k {
                        assert(r[j2] == ps[j2]);
                    }
                }
                assert(is_first_key_position(r, k2, j));
                lemma_key_position_found(r, k2, j);
            },
            None => {
                assert forall|j: int| 0 <= j < r.len() implies r[j].0 != k2 by {
                    if r[j].0 != k && j < ps.len() {
                        assert(r[j] == ps[j]);
                        if ps[j].0 == k2 {
                            assert forall|j2: int| 0 <= j2 < j implies ps[j2].0 != k2 by {
                                if ps[j2].0 == k2 {
                                    assert(ps[j2].0 == ps[j].0);
                                }
                            }
                            assert(is_first_key_position(ps, k2, j));
                        }
                    }
                }
            },
        }
    }
}

// ---------------------------------------------------------------------
// Streaming text
// ---------------------------------------------------------------------

/// Once the text up to the held-back prefix has been streamed, there is
/// nothing more to stream until more input is read.
pub proof fn law_stream_drains(m: ParserView)
    ensures
        !has_next_chunk(ParserView { cursor: stream_end(m), ..m }),
{
    let m2 = ParserView { cursor: stream_end(m), ..m };
    assert(joined_text(m2) == joined_text(m));
    assert(held_prefix(m2) == held_prefix(m));
}

// ---------------------------------------------------------------------
// Parameter values, rendering and held-back text
// ---------------------------------------------------------------------

/// `raw` without one leading and one trailing line feed, where it has them.
proof fn lemma_one_newline_each_end(raw: Seq<char>)
    ensures
        ({
            let a: int = if raw.len() > 0 && raw[0] == '\n' { 1 } else { 0 };
            let b: int = if raw.len() - a > 0 && raw[raw.len() - 1] == '\n' { 1 } else { 0 };
            crate::model::strip_one_newline(raw) == raw.subrange(a, raw.len() - b)
        }),
{
    let a: int = if raw.len() > 0 && raw[0] == '\n' { 1 } else { 0 };
    let s1 = if raw.len() > 0 && raw[0] == '\n' { raw.drop_first() } else { raw };
    assert(s1 =~= raw.subrange(a, raw.len() as int));
    if s1.len() > 0 {
        assert(s1.last() == raw[raw.len() - 1]);
    }
    let b: int = if raw.len() - a > 0 && raw[raw.len() - 1] == '\n' { 1 } else { 0 };
    if b == 1 {
        assert(s1.drop_last() =~= raw.subrange(a, raw.len() - 1));
    }
}

/// When the closing tag of the open parameter is read, inside any tool, the
/// parameter is closed and stored: a parameter named `content` keeps the text
/// between its tags with at most one leading and at most one trailing line
/// feed removed and nothing else; any other parameter is trimmed.
pub proof fn law_param_closing_value(m: ParserView, ch: char)
    requires
        view_wf(m),
        m.tool_block is Some,
        m.param is Some,
        utf8_len(m.acc.push(ch)) <= MAX_ACCUMULATOR_SIZE,
        utf8_len(m.acc.push(ch).subrange(m.param_start, m.acc.len() + 1int)) <= MAX_PARAM_LENGTH,
        ends_with(m.acc.push(ch).subrange(m.param_start, m.acc.len() + 1int), closing_tag(m.param->0)),
    ensures
        step(m, ch) is Some,
        ({
            let name = m.param->0;
            let value = m.acc.push(ch).subrange(m.param_start, m.acc.len() + 1int);
            let raw = value.subrange(0, value.len() - closing_tag(name).len());
            let a: int = if raw.len() > 0 && raw[0] == '\n' { 1 } else { 0 };
            let b: int = if raw.len() - a > 0 && raw[raw.len() - 1] == '\n' { 1 } else { 0 };
            let r = step(m, ch)->0;
            let ti = m.tool_block->0;
            &&& r.param is None
            &&& r.tool_block == m.tool_block
            &&& r.blocks[ti] is Tool
            &&& name == "content"@ ==> params_get(r.blocks[ti]->Tool_params, name) == Some(
                raw.subrange(a, raw.len() - b),
            )
            &&& name != "content"@ ==> params_get(r.blocks[ti]->Tool_params, name) == Some(trim(raw))
        }),
{
    let m1 = ParserView { acc: m.acc.push(ch), ..m };
    crate::model::lemma_push_acc(m, ch);
    let name = m.param->0;
    let value = m1.acc.subrange(m.param_start, m1.acc.len() as int);
    let raw = value.subrange(0, value.len() - closing_tag(name).len());
    let stored = crate::model::normalize_param_value(name, raw);
    assert(param_step(m1) == (ParserView { param: None, ..set_tool_param(m1, name, stored) }, true));
    let ti = m.tool_block->0;
    reveal(blocks_ok);
    assert(block_ok(m1.tool_names, m1.param_names, m1.blocks[ti]));
    match m1.blocks[ti] {
        BlockView::Tool { name: tn, params, partial } => {
            lemma_params_set_unique(params, name, stored);
        },
        BlockView::Text { .. } => {},
    }
    lemma_one_newline_each_end(raw);
}

/// In a `write_to_file` tool with no parameter open, reading a character
/// that ends the text with `</content>` sets `content` to the text between
/// the first `<content>` and the last `</content>` of the tool's body, with at
/// most one leading and at most one trailing line feed removed and nothing
/// else.
pub proof fn law_write_to_file_content(m: ParserView, ch: char, s0: int, e: int)
    requires
        view_wf(m),
        m.tool_block is Some,
        m.param is None,
        m.blocks[m.tool_block->0] is Tool,
        m.blocks[m.tool_block->0]->Tool_name == "write_to_file"@,
        utf8_len(m.acc.push(ch)) <= MAX_ACCUMULATOR_SIZE,
        ends_with(m.acc.push(ch), "</content>"@),
        ({
            let body = m.acc.push(ch).subrange(m.tool_start, m.acc.len() + 1int);
            &&& occurs_at(body, "<content>"@, s0)
            &&& forall|j: int| 0 <= j < s0 ==> !occurs_at(body, "<content>"@, j)
            &&& occurs_at(body, "</content>"@, e)
            &&& forall|j: int| e < j <= body.len() ==> !occurs_at(body, "</content>"@, j)
            &&& e > s0 + "<content>"@.len()
        }),
    ensures
        step(m, ch) is Some,
        ({
            let body = m.acc.push(ch).subrange(m.tool_start, m.acc.len() + 1int);
            let raw = body.subrange(s0 + "<content>"@.len(), e);
            let a: int = if raw.len() > 0 && raw[0] == '\n' { 1 } else { 0 };
            let b: int = if raw.len() - a > 0 && raw[raw.len() - 1] == '\n' { 1 } else { 0 };
            let r = step(m, ch)->0;
            let ti = m.tool_block->0;
            &&& r.tool_block == m.tool_block
            &&& r.blocks[ti] is Tool
            &&& params_get(r.blocks[ti]->Tool_params, "content"@) == Some(raw.subrange(a, raw.len() - b))
        }),
{
    let m1 = ParserView { acc: m.acc.push(ch), ..m };
    crate::model::lemma_push_acc(m, ch);
    let acc = m1.acc;
    let body = acc.subrange(m.tool_start, acc.len() as int);
    let ti = m.tool_block->0;
    reveal_strlit("</content>");
    reveal_strlit("<content>");
    reveal_strlit("write_to_file");
    let cl = closing_tag("write_to_file"@);
    reveal_strlit("</");
    reveal_strlit(">");
    assert(cl.len() == 16);
    assert(cl[14] == 'e');
    assert(body.len() >= 10);
    let ct = "</content>"@;
    assert(ct.len() == 10 && ct[8] == 't');
    assert(acc.subrange(acc.len() - 10, acc.len() as int) == ct);
    assert(acc[acc.len() - 2] == acc.subrange(acc.len() - 10, acc.len() as int)[8]);
    assert(body[body.len() - 2] == acc[acc.len() - 2]);
    assert(!ends_with(body, cl)) by {
        if ends_with(body, cl) {
            assert(body[body.len() - 2] == body.subrange(body.len() - 16, body.len() as int)[14]);
        }
    }
    assert(step(m, ch) == Some(tool_step(m1)));
    let m2 = match param_tag_match(m1) {
        Some(pi) => ParserView { param: Some(m1.param_names[pi]), param_start: acc.len() as int, ..m1 },
        None => m1,
    };
    assert(tool_step(m1) == crate::model::refresh_content(m2));
    let body2 = m2.acc.subrange(m2.tool_start, m2.acc.len() as int);
    assert(body2 == body);
    assert(crate::model::is_first_occurrence(body, "<content>"@, s0));
    crate::model::lemma_find_first_found(body, "<content>"@, s0);
    assert(crate::model::is_last_occurrence(body, "</content>"@, e));
    crate::model::lemma_find_last_found(body, "</content>"@, e);
    let raw = body.subrange(s0 + "<content>"@.len(), e);
    let stored = crate::model::normalize_param_value("content"@, raw);
    assert(crate::model::refresh_content(m2) == set_tool_param(m2, "content"@, stored));
    reveal(blocks_ok);
    assert(block_ok(m1.tool_names, m1.param_names, m1.blocks[ti]));
    match m2.blocks[ti] {
        BlockView::Tool { name: tn, params, partial } => {
            lemma_params_set_unique(params, "content"@, stored);
        },
        BlockView::Text { .. } => {},
    }
    lemma_one_newline_each_end(raw);
}

/// Rendering parameters: none give nothing, and one more parameter adds
/// exactly its line `\n<k>v</k>` after the others, so every parameter gets
/// one line, in order; a tool call is its opening tag, those lines, and its
/// closing tag on a line of its own.
pub proof fn law_params_xml_lines(name: Seq<char>, ps: ParamsView, k: Seq<char>, v: Seq<char>)
    ensures
        params_xml(Seq::empty()) == Seq::<char>::empty(),
        params_xml(ps.push((k, v))) == params_xml(ps) + "\n<"@ + k + ">"@ + v + "</"@ + k + ">"@,
        tool_xml(name, ps) == "<"@ + name + ">"@ + params_xml(ps) + "\n</"@ + name + ">"@,
{
    assert(ps.push((k, v)).drop_last() =~= ps);
}

/// Whenever the joined text ends with one of the parser's tag prefixes
/// (the whole text being that prefix included), streaming stops where that
/// prefix starts: none of its characters is streamed.
pub proof fn law_stream_holds_back_prefix(m: ParserView, i: int)
    requires
        m.prefixes.to_multiset() == unsorted_default_prefixes().to_multiset(),
        0 <= i < m.prefixes.len(),
        ends_with(joined_text(m), m.prefixes[i]),
    ensures
        stream_end_index(m) == joined_text(m).len() - m.prefixes[i].len(),
        stream_end_index(m) < joined_text(m).len(),
        stream_end(m) == utf8_len(joined_text(m)) - utf8_len(m.prefixes[i]),
        stream_end(m) < utf8_len(joined_text(m)),
{
    let t = joined_text(m);
    let f = |p: Seq<char>| ends_with(t, p);
    lemma_prefixes_shape(m.prefixes);
    assert(f(m.prefixes[i]));
    lemma_first_index_exists(m.prefixes, f, i);
    crate::model::lemma_first_index_some(m.prefixes, f);
    let k = held_prefix(m)->0;
    let p = m.prefixes[k];
    let q = m.prefixes[i];
    assert(tag_prefix_shape(p) && tag_prefix_shape(q));
    assert(ends_with(t, p));
    if p.len() < q.len() {
        let j = q.len() - p.len();
        assert(q[j] == t[t.len() - q.len() + j]);
        assert(p[0] == t[t.len() - p.len()]);
    }
    if q.len() < p.len() {
        let j = p.len() - q.len();
        assert(p[j] == t[t.len() - p.len() + j]);
        assert(q[0] == t[t.len() - q.len()]);
    }
    assert(p =~= q);
    lemma_utf8_len_concat(t.subrange(0, t.len() - q.len()), q);
    assert(t =~= t.subrange(0, t.len() - q.len()) + q);
    crate::text::lemma_utf8_len_single(q[0]);
    assert(q =~= seq![q[0]] + q.drop_first());
    lemma_utf8_len_concat(seq![q[0]], q.drop_first());
}

/// The last block is surely text exactly when it is a text block that no
/// tag prefix of the parser ends; in particular text ending with `<` is
/// never surely text.
pub proof fn law_last_block_surely(m: ParserView)
    requires
        m.prefixes.to_multiset() == unsorted_default_prefixes().to_multiset(),
    ensures
        last_block_text_surely(m) <==> (m.blocks.len() > 0 && m.blocks.last() is Text && forall|i: int|
            0 <= i < m.prefixes.len() ==> !ends_with(m.blocks.last()->Text_content, #[trigger] m.prefixes[i])),
        m.blocks.len() > 0 && m.blocks.last() is Text && ends_with(m.blocks.last()->Text_content, "<"@)
            ==> !last_block_text_surely(m),
{
    lemma_prefixes_shape(m.prefixes);
    let k = choose|k: int| 0 <= k < m.prefixes.len() && m.prefixes[k] == "<"@;
    assert(m.prefixes[k] == "<"@);
}

} // verus!
