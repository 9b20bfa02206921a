//! The streaming parser.
use vstd::prelude::*;
use crate::blocks::{BlockView, ContentBlock, ParserError, TextContent, ToolUse};
use crate::model::{ParserView, opening_tag, closing_tag, view_wf, set_tool_param, inv_core,
    param_step, normalize_param_value, strip_one_newline, MAX_PARAM_LENGTH, tool_step, refresh_content,
    param_tag_match, occurs_at, is_first_occurrence, is_last_occurrence, find_first, find_last,
    lemma_find_first_found, lemma_find_last_found, is_first_index, lemma_first_index_found,
    lemma_first_index_none, first_index, start_tool, text_step, tool_tag_match, kept_bytes,
    partial_opening_tag, step, lemma_step_wf, lemma_push_acc, lemma_param_step_core, MAX_ACCUMULATOR_SIZE,
    feed, chunk_fits, chunk_accepted, lemma_utf8_len_first, is_initial, reset, finalize, lemma_initial_wf,
    lemma_reset_wf, lemma_finalize_wf, finalize_block, last_block_text_surely, joined_text, text_parts,
    join_spaced, lemma_text_parts_take, lemma_join_push, lemma_joined_text_bound, held_prefix,
    stream_end, stream_end_index, has_next_chunk, next_chunk_defined, next_chunk};
use crate::tools::{default_tool_names, default_tool_param_names, default_prefix_chars,
    default_tool_names_spec, default_tool_param_names_spec, unsorted_default_prefixes, lex_order,
    sorted_default_prefixes};
use vstd::relations::sorted_by;
use crate::text::{TextBuf, byte_offset, str_chars, concat_chars, chars_eq, string_from_chars,
    ends_with, char_width, lemma_byte_offset_mono, lemma_byte_offset_full, lemma_byte_offset_next,
    lemma_byte_offset_prefix, lemma_utf8_len_ge_len, utf8_len_capped, lemma_byte_offset_subrange,
    char_index_at_byte, lemma_char_index_at_byte, trim, utf8_len, char_width_exec, string_chars,
    trim_chars, vec_ends_with, char_index_for_byte, subrange_chars, lemma_utf8_len_concat};

verus! {

/// Incremental parser of an assistant message into text and tool blocks.
#[derive(Debug)]
pub struct AssistantMessageParser {
    tool_names: Vec<Vec<char>>,
    tool_param_names: Vec<Vec<char>>,
    tool_opening_tags: Vec<Vec<char>>,
    param_opening_tags: Vec<Vec<char>>,
    default_tool_prefixes: Vec<Vec<char>>,
    content_blocks: Vec<ContentBlock>,
    current_text_block_index: Option<usize>,
    current_text_content_start_index: usize,
    current_text_content_start_byte: usize,
    current_tool_block_index: Option<usize>,
    current_tool_use_start_index: usize,
    current_tool_use_start_byte: usize,
    current_tool_closing_tag: Vec<char>,
    current_tool_is_write_to_file: bool,
    current_param_name: Option<usize>,
    current_param_value_start_index: usize,
    current_param_value_start_byte: usize,
    accumulator: TextBuf,
    iter_idx: usize,
}

/// The character sequences of `v`.
pub open spec fn seqs_of(v: Seq<Vec<char>>) -> Seq<Seq<char>> {
    v.map_values(|x: Vec<char>| x@)
}

/// The abstract blocks of `v`.
pub open spec fn blocks_of(v: Seq<ContentBlock>) -> Seq<BlockView> {
    v.map_values(|b: ContentBlock| b@)
}

/// The state of a parser for the given tools and parameter names before
/// anything is read.
pub open spec fn initial_view(tool_names: Seq<Seq<char>>, param_names: Seq<Seq<char>>) -> ParserView {
    ParserView {
        tool_names,
        param_names,
        prefixes: sorted_default_prefixes(),
        blocks: Seq::empty(),
        text_block: None,
        text_start: 0,
        tool_block: None,
        tool_start: 0,
        param: None,
        param_start: 0,
        acc: Seq::empty(),
        cursor: 0,
    }
}

/// `Some(i)` as an `int` index.
pub open spec fn index_of(o: Option<usize>) -> Option<int> {
    match o {
        Some(i) => Some(i as int),
        None => None,
    }
}

impl View for AssistantMessageParser {
    type V = ParserView;

    closed spec fn view(&self) -> ParserView {
        ParserView {
            tool_names: seqs_of(self.tool_names@),
            param_names: seqs_of(self.tool_param_names@),
            prefixes: seqs_of(self.default_tool_prefixes@),
            blocks: blocks_of(self.content_blocks@),
            text_block: index_of(self.current_text_block_index),
            text_start: self.current_text_content_start_index as int,
            tool_block: index_of(self.current_tool_block_index),
            tool_start: self.current_tool_use_start_index as int,
            param: match self.current_param_name {
                Some(i) => Some(self.tool_param_names@[i as int]@),
                None => None,
            },
            param_start: self.current_param_value_start_index as int,
            acc: self.accumulator@,
            cursor: self.iter_idx as int,
        }
    }
}

impl AssistantMessageParser {
    /// The concrete fields agree with one another and with the abstract
    /// state.
    closed spec fn caches_ok(&self) -> bool {
        let acc = self.accumulator@;
        &&& self.accumulator.wf()
        &&& self.tool_opening_tags@.len() == self.tool_names@.len()
        &&& forall|i: int|
            0 <= i < self.tool_names@.len() ==> (#[trigger] self.tool_opening_tags@[i])@
                == opening_tag(self.tool_names@[i]@)
        &&& self.param_opening_tags@.len() == self.tool_param_names@.len()
        &&& forall|i: int|
            0 <= i < self.tool_param_names@.len() ==> (#[trigger] self.param_opening_tags@[i])@
                == opening_tag(self.tool_param_names@[i]@)
        &&& self.current_text_content_start_index <= acc.len()
        &&& self.current_text_content_start_byte == byte_offset(
            acc,
            self.current_text_content_start_index as int,
        )
        &&& self.current_tool_use_start_index <= acc.len()
        &&& self.current_tool_use_start_byte == byte_offset(
            acc,
            self.current_tool_use_start_index as int,
        )
        &&& self.current_param_value_start_index <= acc.len()
        &&& self.current_param_value_start_byte == byte_offset(
            acc,
            self.current_param_value_start_index as int,
        )
        &&& (self.current_param_name matches Some(i) ==> i < self.tool_param_names@.len())
        &&& (self.current_text_block_index matches Some(t) ==> t < self.content_blocks@.len())
        &&& (self.current_tool_block_index matches Some(t) ==> {
            &&& t < self.content_blocks@.len()
            &&& self.content_blocks@[t as int]@ matches BlockView::Tool { name, .. }
            &&& self.current_tool_closing_tag@ == closing_tag(name)
            &&& self.current_tool_is_write_to_file == (name == "write_to_file"@)
        })
        &&& forall|i: int| 0 <= i < self.content_blocks@.len() ==> (#[trigger] self.content_blocks@[i]).wf()
        &&& self.content_blocks@.len() <= acc.len()
    }

    /// The parser's invariant.
    pub closed spec fn wf(&self) -> bool {
        &&& self.caches_ok()
        &&& view_wf(self@)
        &&& self@.prefixes == sorted_default_prefixes()
        &&& sorted_by(self@.prefixes, lex_order())
        &&& self@.prefixes.to_multiset() == unsorted_default_prefixes().to_multiset()
    }

    /// Sets parameter `name` of the current tool block.
    fn set_tool_param(&mut self, name: String, value: String)
        requires
            old(self).caches_ok(),
            old(self).current_tool_block_index is Some,
        ensures
            final(self).caches_ok(),
            final(self)@ == set_tool_param(old(self)@, name@, value@),
    {
        let t = self.current_tool_block_index.unwrap();
        match &mut self.content_blocks[t] {
            ContentBlock::ToolUse(tool) => {
                tool.params.insert(name, value);
            },
            ContentBlock::Text(_) => {},
        }
        proof {
            assert(blocks_of(self.content_blocks@) =~= set_tool_param(old(self)@, name@, value@).blocks);
        }
    }
}

/// The characters of each string.
fn strings_to_chars(v: &Vec<String>) -> (r: Vec<Vec<char>>)
    ensures
        seqs_of(r@) == v@.map_values(|s: String| s@),
{
    let mut r: Vec<Vec<char>> = Vec::new();
    let mut i: usize = 0;
    while i < v.len()
        invariant
            i <= v@.len(),
            seqs_of(r@) == v@.map_values(|s: String| s@).take(i as int),
        decreases v@.len() - i,
    {
        let c = string_chars(&v[i]);
        let ghost old_r = r@;
        r.push(c);
        proof {
            assert(seqs_of(r@) =~= seqs_of(old_r).push(c@));
            assert(v@.map_values(|s: String| s@).take(i as int + 1) =~= v@.map_values(
                |s: String| s@,
            ).take(i as int).push(v@[i as int]@));
        }
        i = i + 1;
    }
    proof {
        assert(v@.map_values(|s: String| s@).take(i as int) =~= v@.map_values(|s: String| s@));
    }
    r
}

/// The opening tag of each name.
fn opening_tags_of(names: &Vec<Vec<char>>) -> (r: Vec<Vec<char>>)
    ensures
        r@.len() == names@.len(),
        forall|i: int| 0 <= i < names@.len() ==> (#[trigger] r@[i])@ == opening_tag(names@[i]@),
{
    let mut r: Vec<Vec<char>> = Vec::new();
    let mut i: usize = 0;
    while i < names.len()
        invariant
            i <= names@.len(),
            r@.len() == i,
            forall|j: int| 0 <= j < i ==> (#[trigger] r@[j])@ == opening_tag(names@[j]@),
        decreases names@.len() - i,
    {
        r.push(opening_tag_chars(&names[i]));
        i = i + 1;
    }
    r
}

/// A copy of each character sequence.
fn clone_seqs(v: &Vec<Vec<char>>) -> (r: Vec<Vec<char>>)
    ensures
        r@.len() == v@.len(),
        forall|i: int| 0 <= i < v@.len() ==> (#[trigger] r@[i])@ == v@[i]@,
{
    let mut r: Vec<Vec<char>> = Vec::new();
    let mut i: usize = 0;
    while i < v.len()
        invariant
            i <= v@.len(),
            r@.len() == i,
            forall|j: int| 0 <= j < i ==> (#[trigger] r@[j])@ == v@[j]@,
        decreases v@.len() - i,
    {
        r.push(v[i].clone());
        i = i + 1;
    }
    r
}

/// The characters of `</name>`.
fn closing_tag_chars(name: &Vec<char>) -> (r: Vec<char>)
    ensures
        r@ == closing_tag(name@),
{
    let a = concat_chars(&str_chars("</"), name);
    concat_chars(&a, &str_chars(">"))
}

/// The characters of `<name>`.
fn opening_tag_chars(name: &Vec<char>) -> (r: Vec<char>)
    ensures
        r@ == opening_tag(name@),
{
    let a = concat_chars(&str_chars("<"), name);
    concat_chars(&a, &str_chars(">"))
}

/// Whether `name` is `content`.
fn is_content_name(name: &Vec<char>) -> (r: bool)
    ensures
        r == (name@ == "content"@),
{
    chars_eq(name, &str_chars("content"))
}

/// `s[a..b]` ends with `suffix` exactly when `s` does and `suffix` fits.
proof fn lemma_ends_with_range(s: Seq<char>, a: int, suffix: Seq<char>)
    requires
        0 <= a <= s.len(),
    ensures
        ends_with(s.subrange(a, s.len() as int), suffix) == (suffix.len() <= s.len() - a && ends_with(
            s,
            suffix,
        )),
        suffix.len() <= s.len() - a ==> s.subrange(a, s.len() as int).subrange(
            0,
            s.len() - a - suffix.len(),
        ) == s.subrange(a, s.len() - suffix.len()),
{
    let v = s.subrange(a, s.len() as int);
    if suffix.len() <= s.len() - a {
        assert(v.subrange(v.len() - suffix.len(), v.len() as int) =~= s.subrange(
            s.len() - suffix.len(),
            s.len() as int,
        ));
        assert(v.subrange(0, s.len() - a - suffix.len()) =~= s.subrange(a, s.len() - suffix.len()));
    }
}

impl AssistantMessageParser {
    /// Largest message, in bytes, that the parser accepts.
    pub const MAX_ACCUMULATOR_SIZE: usize = MAX_ACCUMULATOR_SIZE;

    /// Longest parameter value, in bytes, that is kept while streaming.
    pub const MAX_PARAM_LENGTH: usize = MAX_PARAM_LENGTH;

    /// The stored value of parameter `name` whose raw text is `acc[a..b]`.
    fn normalized_value(&self, name: &Vec<char>, a: usize, ba: usize, b: usize, bb: usize) -> (r: String)
        requires
            self.accumulator.wf(),
            a <= b <= self.accumulator@.len(),
            ba == byte_offset(self.accumulator@, a as int),
            bb == byte_offset(self.accumulator@, b as int),
        ensures
            r@ == normalize_param_value(name@, self.accumulator@.subrange(a as int, b as int)),
    {
        let ghost acc = self.accumulator@;
        if is_content_name(name) {
            let ghost raw = acc.subrange(a as int, b as int);
            let mut a2 = a;
            let mut ba2 = ba;
            if a2 < b && self.accumulator.char_at(a2) == '\n' {
                proof {
                    lemma_byte_offset_next(acc, a as int);
                    lemma_byte_offset_mono(acc, a + 1, b as int);
                    assert(char_width('\n') == 1);
                    assert(raw.drop_first() =~= acc.subrange(a + 1, b as int));
                }
                a2 = a2 + 1;
                ba2 = ba2 + 1;
            } else {
                assert(raw =~= acc.subrange(a as int, b as int));
            }
            let mut b2 = b;
            let mut bb2 = bb;
            if b2 > a2 && self.accumulator.char_at(b2 - 1) == '\n' {
                proof {
                    lemma_byte_offset_next(acc, b - 1);
                    assert(char_width('\n') == 1);
                    assert(acc.subrange(a2 as int, b as int).drop_last() =~= acc.subrange(a2 as int, b - 1));
                }
                b2 = b2 - 1;
                bb2 = bb2 - 1;
            }
            proof {
                let s1 = if raw.len() > 0 && raw[0] == '\n' { raw.drop_first() } else { raw };
                assert(s1 == acc.subrange(a2 as int, b as int));
                assert(strip_one_newline(raw) =~= acc.subrange(a2 as int, b2 as int));
            }
            self.accumulator.slice(a2, ba2, b2, bb2)
        } else {
            self.accumulator.trimmed_slice(a, ba, b, bb)
        }
    }

    /// One more character inside a parameter: returns whether the parameter
    /// took it.
    fn process_current_param(&mut self) -> (handled: bool)
        requires
            old(self).caches_ok(),
            inv_core(old(self)@),
            old(self)@.tool_block is Some,
            old(self)@.param is Some,
        ensures
            final(self).caches_ok(),
            (final(self)@, handled) == param_step(old(self)@),
    {
        let ghost m = self@;
        let ghost acc = self.accumulator@;
        let pi = self.current_param_name.unwrap();
        let len = self.accumulator.len();
        let bytes = self.accumulator.byte_len();
        let ps = self.current_param_value_start_index;
        let pb = self.current_param_value_start_byte;
        proof {
            lemma_byte_offset_mono(acc, ps as int, len as int);
            lemma_byte_offset_full(acc);
        }
        if bytes - pb > MAX_PARAM_LENGTH {
            self.current_param_name = None;
            self.current_param_value_start_index = 0;
            self.current_param_value_start_byte = 0;
            return false;
        }
        let name = self.tool_param_names[pi].clone();
        let closing = closing_tag_chars(&name);
        let name_str = string_from_chars(&name);
        proof {
            lemma_ends_with_range(acc, ps as int, closing@);
        }
        if closing.len() <= len - ps && self.accumulator.ends_with(&closing) {
            let end = len - closing.len();
            let eb = self.accumulator.byte_offset_back(len, bytes, end);
            let value = self.normalized_value(&name, ps, pb, end, eb);
            self.set_tool_param(name_str, value);
            self.current_param_name = None;
        } else {
            let value = self.accumulator.slice(ps, pb, len, bytes);
            self.set_tool_param(name_str, value);
        }
        true
    }

    /// The first occurrence of `needle` in `acc[from..]`, as an index of `acc`.
    fn find_from(&self, from: usize, needle: &Vec<char>) -> (r: Option<usize>)
        requires
            self.accumulator.wf(),
            from <= self.accumulator@.len(),
            needle@.len() > 0,
        ensures
            match r {
                Some(k) => from <= k && find_first(
                    self.accumulator@.subrange(from as int, self.accumulator@.len() as int),
                    needle@,
                ) == Some(k - from),
                None => find_first(
                    self.accumulator@.subrange(from as int, self.accumulator@.len() as int),
                    needle@,
                ) is None,
            },
    {
        let ghost acc = self.accumulator@;
        let len = self.accumulator.len();
        let ghost body = acc.subrange(from as int, len as int);
        let mut k = from;
        while k < len
            invariant
                self.accumulator.wf(),
                acc == self.accumulator@,
                len == acc.len(),
                from <= k <= len,
                needle@.len() > 0,
                body == acc.subrange(from as int, len as int),
                forall|j: int| 0 <= j < k - from ==> !occurs_at(body, needle@, j),
            decreases len - k,
        {
            let hit = self.accumulator.matches_at(k, needle);
            proof {
                if k + needle@.len() <= len {
                    assert(body.subrange(k - from, k - from + needle@.len()) =~= acc.subrange(
                        k as int,
                        k + needle@.len(),
                    ));
                }
            }
            if hit {
                proof {
                    assert(is_first_occurrence(body, needle@, k - from));
                    lemma_find_first_found(body, needle@, k - from);
                }
                return Some(k);
            }
            k = k + 1;
        }
        proof {
            assert forall|i: int| !is_first_occurrence(body, needle@, i) by {
                if i >= k - from && i >= 0 {
                    assert(!occurs_at(body, needle@, i));
                }
            }
        }
        None
    }

    /// The last occurrence of `needle` in `acc[from..]`, as an index of `acc`.
    fn rfind_from(&self, from: usize, needle: &Vec<char>) -> (r: Option<usize>)
        requires
            self.accumulator.wf(),
            from <= self.accumulator@.len(),
            self.accumulator@.len() < usize::MAX,
        ensures
            match r {
                Some(k) => from <= k && find_last(
                    self.accumulator@.subrange(from as int, self.accumulator@.len() as int),
                    needle@,
                ) == Some(k - from),
                None => find_last(
                    self.accumulator@.subrange(from as int, self.accumulator@.len() as int),
                    needle@,
                ) is None,
            },
    {
        let ghost acc = self.accumulator@;
        let len = self.accumulator.len();
        let ghost body = acc.subrange(from as int, len as int);
        let mut jj = len + 1;
        while jj > from
            invariant
                self.accumulator.wf(),
                acc == self.accumulator@,
                len == acc.len(),
                from <= len,
                from <= jj <= len + 1,
                body == acc.subrange(from as int, len as int),
                forall|j: int| jj - from <= j <= body.len() ==> !occurs_at(body, needle@, j),
            decreases jj - from,
        {
            let j = jj - 1;
            let hit = self.accumulator.matches_at(j, needle);
            proof {
                if j + needle@.len() <= len {
                    assert(body.subrange(j - from, j - from + needle@.len()) =~= acc.subrange(
                        j as int,
                        j + needle@.len(),
                    ));
                }
            }
            if hit {
                proof {
                    assert(is_last_occurrence(body, needle@, j - from));
                    lemma_find_last_found(body, needle@, j - from);
                }
                return Some(j);
            }
            jj = j;
        }
        proof {
            assert forall|i: int| !is_last_occurrence(body, needle@, i) by {
                if 0 <= i {
                    assert(!occurs_at(body, needle@, i));
                }
            }
        }
        None
    }

    /// The text between the first `<content>` and the last `</content>` of
    /// the current tool's body becomes its `content` parameter.
    fn refresh_write_to_file_content(&mut self)
        requires
            old(self).caches_ok(),
            old(self).current_tool_block_index is Some,
            old(self).accumulator@.len() < usize::MAX,
        ensures
            final(self).caches_ok(),
            final(self)@ == refresh_content(old(self)@),
    {
        let ghost m = self@;
        let ghost acc = self.accumulator@;
        let open = str_chars("<content>");
        let close = str_chars("</content>");
        proof {
            reveal_strlit("<content>");
        }
        let len = self.accumulator.len();
        let bytes = self.accumulator.byte_len();
        let ts = self.current_tool_use_start_index;
        let tb = self.current_tool_use_start_byte;
        let ghost body = acc.subrange(ts as int, len as int);
        proof {
            lemma_byte_offset_full(acc);
        }
        let s0 = match self.find_from(ts, &open) {
            Some(k) => k,
            None => {
                return;
            },
        };
        let e = match self.rfind_from(ts, &close) {
            Some(k) => k,
            None => {
                return;
            },
        };
        proof {
            assert(occurs_at(body, open@, s0 - ts));
            assert(occurs_at(body, close@, e - ts));
        }
        let s = s0 + open.len();
        if e <= s {
            return;
        }
        let s0b = self.accumulator.byte_offset_fwd(ts, tb, s0);
        let sb = self.accumulator.byte_offset_fwd(s0, s0b, s);
        let eb = self.accumulator.byte_offset_back(len, bytes, e);
        let content = str_chars("content");
        let value = self.normalized_value(&content, s, sb, e, eb);
        proof {
            assert(body.subrange(s - ts, e - ts) =~= acc.subrange(s as int, e as int));
        }
        self.set_tool_param("content".to_owned(), value);
    }

    /// The first parameter whose opening tag ends the accumulated text.
    fn find_param_tag(&self) -> (r: Option<usize>)
        requires
            self.caches_ok(),
        ensures
            match r {
                Some(i) => param_tag_match(self@) == Some(i as int) && i < self.tool_param_names@.len(),
                None => param_tag_match(self@) is None,
            },
    {
        let ghost m = self@;
        let mut i: usize = 0;
        while i < self.param_opening_tags.len()
            invariant
                self.caches_ok(),
                self@ == m,
                i <= self.param_opening_tags@.len(),
                forall|j: int|
                    0 <= j < i ==> !ends_with(m.acc, opening_tag(#[trigger] m.param_names[j])),
            decreases self.param_opening_tags@.len() - i,
        {
            if self.accumulator.ends_with(&self.param_opening_tags[i]) {
                proof {
                    let p = |p: Seq<char>| ends_with(m.acc, opening_tag(p));
                    assert(m.param_names[i as int] == self.tool_param_names@[i as int]@);
                    assert(is_first_index(m.param_names, p, i as int));
                    lemma_first_index_found(m.param_names, p, i as int);
                }
                return Some(i);
            }
            proof {
                assert(m.param_names[i as int] == self.tool_param_names@[i as int]@);
            }
            i = i + 1;
        }
        proof {
            let p = |p: Seq<char>| ends_with(m.acc, opening_tag(p));
            lemma_first_index_none(m.param_names, p);
        }
        None
    }

    /// One more character inside a tool block, outside any parameter.
    fn process_current_tool(&mut self)
        requires
            old(self).caches_ok(),
            inv_core(old(self)@),
            old(self)@.tool_block is Some,
            old(self)@.param is None,
        ensures
            final(self).caches_ok(),
            final(self)@ == tool_step(old(self)@),
    {
        let ghost m = self@;
        let ghost acc = self.accumulator@;
        let t = self.current_tool_block_index.unwrap();
        let len = self.accumulator.len();
        let bytes = self.accumulator.byte_len();
        let ts = self.current_tool_use_start_index;
        proof {
            lemma_ends_with_range(acc, ts as int, self.current_tool_closing_tag@);
            lemma_byte_offset_full(acc);
            lemma_utf8_len_ge_len(acc);
        }
        if self.current_tool_closing_tag.len() <= len - ts && self.accumulator.ends_with(
            &self.current_tool_closing_tag,
        ) {
            match &mut self.content_blocks[t] {
                ContentBlock::ToolUse(tool) => {
                    tool.partial = false;
                },
                ContentBlock::Text(_) => {},
            }
            self.current_tool_block_index = None;
            proof {
                assert(blocks_of(self.content_blocks@) =~= tool_step(m).blocks);
            }
            return;
        }
        match self.find_param_tag() {
            Some(i) => {
                self.current_param_name = Some(i);
                self.current_param_value_start_index = len;
                self.current_param_value_start_byte = bytes;
            },
            None => {},
        }
        let close = str_chars("</content>");
        if self.current_tool_is_write_to_file && self.accumulator.ends_with(&close) {
            self.refresh_write_to_file_content();
        }
    }

    /// The first tool whose opening tag ends the accumulated text.
    fn find_tool_tag(&self) -> (r: Option<usize>)
        requires
            self.caches_ok(),
        ensures
            match r {
                Some(i) => tool_tag_match(self@) == Some(i as int) && i < self.tool_names@.len(),
                None => tool_tag_match(self@) is None,
            },
    {
        let ghost m = self@;
        let mut i: usize = 0;
        while i < self.tool_opening_tags.len()
            invariant
                self.caches_ok(),
                self@ == m,
                i <= self.tool_opening_tags@.len(),
                forall|j: int|
                    0 <= j < i ==> !ends_with(m.acc, opening_tag(#[trigger] m.tool_names[j])),
            decreases self.tool_opening_tags@.len() - i,
        {
            if self.accumulator.ends_with(&self.tool_opening_tags[i]) {
                proof {
                    let p = |n: Seq<char>| ends_with(m.acc, opening_tag(n));
                    assert(m.tool_names[i as int] == self.tool_names@[i as int]@);
                    assert(is_first_index(m.tool_names, p, i as int));
                    lemma_first_index_found(m.tool_names, p, i as int);
                }
                return Some(i);
            }
            proof {
                assert(m.tool_names[i as int] == self.tool_names@[i as int]@);
            }
            i = i + 1;
        }
        proof {
            let p = |n: Seq<char>| ends_with(m.acc, opening_tag(n));
            lemma_first_index_none(m.tool_names, p);
        }
        None
    }

    /// Text after `start_tool`'s cut of the current text block at byte
    /// `keep`: `None` when the cut splits a character.
    fn cut_text(&self, a: usize, ba: usize, b: usize, bb: usize, keep: usize) -> (r: Option<String>)
        requires
            self.accumulator.wf(),
            a <= b <= self.accumulator@.len(),
            ba == byte_offset(self.accumulator@, a as int),
            bb == byte_offset(self.accumulator@, b as int),
            keep <= bb - ba,
        ensures
            ({
                let content = self.accumulator@.subrange(a as int, b as int);
                match r {
                    Some(c) => char_index_at_byte(content, keep as int) matches Some(k) && c@ == trim(
                        content.take(k),
                    ),
                    None => char_index_at_byte(content, keep as int) is None,
                }
            }),
    {
        let ghost acc = self.accumulator@;
        let ghost content = acc.subrange(a as int, b as int);
        proof {
            lemma_byte_offset_mono(acc, a as int, b as int);
        }
        let target = ba + keep;
        let mut k = a;
        let mut kb = ba;
        while kb < target
            invariant
                self.accumulator.wf(),
                acc == self.accumulator@,
                a <= k <= b <= acc.len(),
                kb == byte_offset(acc, k as int),
                ba == byte_offset(acc, a as int),
                bb == byte_offset(acc, b as int),
                target == ba + keep,
                target <= bb,
                forall|j: int| a <= j < k ==> byte_offset(acc, j) < target,
            decreases b - k,
        {
            proof {
                if k == b {
                    assert(false);
                }
                lemma_byte_offset_next(acc, k as int);
                lemma_byte_offset_mono(acc, k as int + 1, b as int);
            }
            kb = kb + char_width_exec(self.accumulator.char_at(k));
            k = k + 1;
        }
        if kb != target {
            proof {
                assert forall|j: int| 0 <= j <= content.len() implies byte_offset(content, j) != keep by {
                    lemma_byte_offset_subrange(acc, a as int, b as int, j);
                    if a + j >= k {
                        lemma_byte_offset_mono(acc, k as int, a + j);
                    }
                }
            }
            return None;
        }
        proof {
            lemma_byte_offset_subrange(acc, a as int, b as int, k - a);
            lemma_char_index_at_byte(content, k - a);
            assert(content.take(k - a) =~= acc.subrange(a as int, k as int));
        }
        Some(self.accumulator.trimmed_slice(a, ba, k, kb))
    }

    /// A tool block opens (tool `i`), closing the current text block.
    fn start_tool(&mut self, i: usize, pos: usize, pos_b: usize) -> (ok: bool)
        requires
            old(self).caches_ok(),
            inv_core(old(self)@),
            old(self)@.tool_block is None,
            old(self)@.param is None,
            i < old(self).tool_names@.len(),
            pos + 1 == old(self).accumulator@.len(),
            pos_b == byte_offset(old(self).accumulator@, pos as int),
            old(self).content_blocks@.len() < old(self).accumulator@.len(),
            old(self)@.text_start <= pos,
            old(self)@.text_block matches Some(t) ==> (old(self)@.blocks[t] matches BlockView::Text {
                content,
                ..
            } && content == trim(
                old(self).accumulator@.subrange(old(self)@.text_start, pos as int),
            )),
        ensures
            ok == start_tool(old(self)@, i as int) is Some,
            ok ==> final(self).caches_ok() && final(self)@ == start_tool(old(self)@, i as int)->0,
    {
        let ghost m = self@;
        let ghost acc = self.accumulator@;
        let len = self.accumulator.len();
        let bytes = self.accumulator.byte_len();
        proof {
            lemma_byte_offset_full(acc);
            lemma_byte_offset_mono(acc, self.current_text_content_start_index as int, pos as int);
        }
        let mut new_content: Option<String> = None;
        match self.current_text_block_index {
            Some(t) => {
                if self.content_blocks[t].is_text() {
                    let (a, ba, b, bb) = self.accumulator.trim_bounds(
                        self.current_text_content_start_index,
                        self.current_text_content_start_byte,
                        pos,
                        pos_b,
                    );
                    let ptag = concat_chars(&str_chars("<"), &self.tool_names[i]);
                    proof {
                        lemma_byte_offset_mono(acc, a as int, b as int);
                        lemma_byte_offset_mono(acc, b as int, len as int);
                        assert(ptag@ == partial_opening_tag(m.tool_names[i as int]));
                    }
                    let cbytes = bb - ba;
                    let pbytes = utf8_len_capped(&ptag, cbytes);
                    let keep = if pbytes <= cbytes {
                        cbytes - pbytes
                    } else {
                        0
                    };
                    match self.cut_text(a, ba, b, bb, keep) {
                        Some(c) => {
                            new_content = Some(c);
                        },
                        None => {
                            return false;
                        },
                    }
                }
            },
            None => {},
        }
        let name_str = string_from_chars(&self.tool_names[i]);
        let closing = closing_tag_chars(&self.tool_names[i]);
        let is_write = chars_eq(&self.tool_names[i], &str_chars("write_to_file"));
        let ghost before = m.blocks;
        match self.current_text_block_index {
            Some(t) => {
                match new_content {
                    Some(c) => {
                        if c.as_str().is_empty() {
                            proof {
                                assert(t as int == m.blocks.len() - 1);
                            }
                            let _ = self.content_blocks.pop();
                            proof {
                                assert(blocks_of(self.content_blocks@) =~= m.blocks.remove(t as int));
                            }
                        } else {
                            match &mut self.content_blocks[t] {
                                ContentBlock::Text(text) => {
                                    text.partial = false;
                                    text.content = c;
                                },
                                ContentBlock::ToolUse(_) => {},
                            }
                        }
                    },
                    None => {},
                }
            },
            None => {},
        }
        self.content_blocks.push(ContentBlock::ToolUse(ToolUse::new(name_str, true)));
        self.current_tool_block_index = Some(self.content_blocks.len() - 1);
        self.current_tool_use_start_index = len;
        self.current_tool_use_start_byte = bytes;
        self.current_tool_closing_tag = closing;
        self.current_tool_is_write_to_file = is_write;
        self.current_text_block_index = None;
        proof {
            assert(blocks_of(self.content_blocks@) =~= (start_tool(m, i as int)->0).blocks);
        }
        true
    }

    /// Plain text: extends the current text block or starts one at `pos`.
    fn process_text(&mut self, pos: usize, pos_b: usize)
        requires
            old(self).caches_ok(),
            inv_core(old(self)@),
            old(self)@.tool_block is None,
            old(self)@.param is None,
            pos + 1 == old(self).accumulator@.len(),
            pos_b == byte_offset(old(self).accumulator@, pos as int),
            old(self).content_blocks@.len() < old(self).accumulator@.len(),
        ensures
            final(self).caches_ok(),
            final(self)@ == text_step(old(self)@, pos as int),
    {
        let ghost m = self@;
        let ghost acc = self.accumulator@;
        let len = self.accumulator.len();
        let bytes = self.accumulator.byte_len();
        proof {
            lemma_byte_offset_full(acc);
        }
        match self.current_text_block_index {
            Some(t) => {
                let c = self.accumulator.trimmed_slice(
                    self.current_text_content_start_index,
                    self.current_text_content_start_byte,
                    len,
                    bytes,
                );
                match &mut self.content_blocks[t] {
                    ContentBlock::Text(text) => {
                        text.content = c;
                    },
                    ContentBlock::ToolUse(_) => {},
                }
                proof {
                    assert(blocks_of(self.content_blocks@) =~= text_step(m, pos as int).blocks);
                }
            },
            None => {
                self.current_text_content_start_index = pos;
                self.current_text_content_start_byte = pos_b;
                let c = self.accumulator.trimmed_slice(pos, pos_b, len, bytes);
                self.content_blocks.push(ContentBlock::Text(TextContent::new(c, true)));
                self.current_text_block_index = Some(self.content_blocks.len() - 1);
                proof {
                    assert(blocks_of(self.content_blocks@) =~= text_step(m, pos as int).blocks);
                }
            },
        }
    }

    /// Reads one character; false where closing the text block would split a
    /// character (nothing is then promised of the state).
    fn step(&mut self, ch: char) -> (ok: bool)
        requires
            old(self).wf(),
            utf8_len(old(self)@.acc.push(ch)) <= MAX_ACCUMULATOR_SIZE,
        ensures
            ok == step(old(self)@, ch) is Some,
            ok ==> final(self).wf() && final(self)@ == step(old(self)@, ch)->0,
    {
        let ghost m = self@;
        let ghost old_acc = self.accumulator@;
        let pos = self.accumulator.len();
        let pos_b = self.accumulator.byte_len();
        proof {
            lemma_byte_offset_full(old_acc);
            crate::text::lemma_utf8_len_push(old_acc, ch);
        }
        self.accumulator.push(ch);
        proof {
            let acc = self.accumulator@;
            assert(old_acc =~= acc.take(old_acc.len() as int));
            lemma_byte_offset_prefix(old_acc, acc, self.current_text_content_start_index as int);
            lemma_byte_offset_prefix(old_acc, acc, self.current_tool_use_start_index as int);
            lemma_byte_offset_prefix(old_acc, acc, self.current_param_value_start_index as int);
            lemma_byte_offset_prefix(old_acc, acc, pos as int);
            lemma_push_acc(m, ch);
            assert(self@ == ParserView { acc: m.acc.push(ch), ..m });
            assert(acc.subrange(m.text_start, pos as int) =~= old_acc.subrange(
                m.text_start,
                old_acc.len() as int,
            ));
        }
        let ghost m1 = self@;
        if self.current_tool_block_index.is_some() && self.current_param_name.is_some() {
            let handled = self.process_current_param();
            if handled {
                proof {
                    lemma_step_wf(m, ch);
                }
                return true;
            }
            proof {
                lemma_param_step_core(m1);
            }
            self.process_current_tool();
            proof {
                lemma_step_wf(m, ch);
            }
            return true;
        }
        if self.current_tool_block_index.is_some() {
            self.process_current_tool();
            proof {
                lemma_step_wf(m, ch);
            }
            return true;
        }
        match self.find_tool_tag() {
            Some(i) => {
                let ok = self.start_tool(i, pos, pos_b);
                proof {
                    if ok {
                        lemma_step_wf(m, ch);
                    }
                }
                ok
            },
            None => {
                self.process_text(pos, pos_b);
                proof {
                    lemma_step_wf(m, ch);
                }
                true
            },
        }
    }

    /// The blocks read so far.
    pub fn get_content_blocks(&self) -> (r: Vec<ContentBlock>)
        ensures
            blocks_of(r@) == self@.blocks,
            self.wf() ==> forall|i: int| 0 <= i < r@.len() ==> (#[trigger] r@[i]).wf(),
    {
        let r = self.content_blocks.clone();
        proof {
            assert forall|i: int| 0 <= i < r@.len() implies r@[i]@ == self.content_blocks@[i]@ && (
            self.wf() ==> r@[i].wf()) by {
                assert(vstd::pervasive::cloned::<ContentBlock>(self.content_blocks@[i], r@[i]));
            }
            assert(blocks_of(r@) =~= self@.blocks);
        }
        r
    }

    /// Feeds the characters of `chunk`. A chunk that would make the message
    /// larger than `MAX_ACCUMULATOR_SIZE` bytes is refused and changes
    /// nothing; otherwise every character is read and the blocks are
    /// returned.
    pub fn process_chunk(&mut self, chunk: &str) -> (r: Result<Vec<ContentBlock>, ParserError>)
        requires
            old(self).wf(),
            chunk_accepted(old(self)@, chunk@),
        ensures
            final(self).wf(),
            chunk_fits(old(self)@, chunk@) ==> final(self)@ == feed(old(self)@, chunk@)->0 && (r matches Ok(
                v,
            ) && blocks_of(v@) == final(self)@.blocks && forall|i: int|
                0 <= i < v@.len() ==> (#[trigger] v@[i]).wf()),
            !chunk_fits(old(self)@, chunk@) ==> r == Err::<Vec<ContentBlock>, ParserError>(
                ParserError::MessageTooLarge,
            ) && final(self)@ == old(self)@,
    {
        let ghost m = self@;
        let cs = str_chars(chunk);
        let cap = MAX_ACCUMULATOR_SIZE - self.accumulator.byte_len();
        if utf8_len_capped(&cs, cap) > cap {
            return Err(ParserError::MessageTooLarge);
        }
        proof {
            assert(cs@.skip(0) =~= cs@);
        }
        let mut i: usize = 0;
        while i < cs.len()
            invariant
                self.wf(),
                i <= cs@.len(),
                cs@ == chunk@,
                chunk_fits(self@, cs@.skip(i as int)),
                feed(self@, cs@.skip(i as int)) is Some,
                feed(m, chunk@) == feed(self@, cs@.skip(i as int)),
            decreases cs@.len() - i,
        {
            let ghost rest = cs@.skip(i as int);
            proof {
                assert(rest[0] == cs@[i as int]);
                assert(rest.drop_first() =~= cs@.skip(i as int + 1));
                lemma_utf8_len_first(rest);
                crate::text::lemma_utf8_len_push(self@.acc, rest[0]);
            }
            let ok = self.step(cs[i]);
            i = i + 1;
        }
        proof {
            assert(cs@.skip(i as int) =~= Seq::<char>::empty());
            assert(cs@.skip(0) =~= chunk@);
        }
        Ok(self.get_content_blocks())
    }

    /// A parser for the given tools and parameter names, or for the
    /// built-in ones where `None` is given.
    pub fn new(tool_names: Option<Vec<String>>, tool_param_names: Option<Vec<String>>) -> (r: Self)
        ensures
            r.wf(),
            is_initial(r@),
            r@.tool_names == match tool_names {
                Some(v) => v@.map_values(|s: String| s@),
                None => default_tool_names_spec(),
            },
            r@.param_names == match tool_param_names {
                Some(v) => v@.map_values(|s: String| s@),
                None => default_tool_param_names_spec(),
            },
            sorted_by(r@.prefixes, lex_order()),
            r@.prefixes.to_multiset() == unsorted_default_prefixes().to_multiset(),
            r@ == initial_view(
                match tool_names {
                    Some(v) => v@.map_values(|s: String| s@),
                    None => default_tool_names_spec(),
                },
                match tool_param_names {
                    Some(v) => v@.map_values(|s: String| s@),
                    None => default_tool_param_names_spec(),
                },
            ),
    {
        let names = match tool_names {
            Some(v) => v,
            None => default_tool_names(),
        };
        let params = match tool_param_names {
            Some(v) => v,
            None => default_tool_param_names(),
        };
        let tool_names = strings_to_chars(&names);
        let tool_param_names = strings_to_chars(&params);
        let tool_opening_tags = opening_tags_of(&tool_names);
        let param_opening_tags = opening_tags_of(&tool_param_names);
        let r = AssistantMessageParser {
            tool_names,
            tool_param_names,
            tool_opening_tags,
            param_opening_tags,
            default_tool_prefixes: default_prefix_chars(),
            content_blocks: Vec::new(),
            current_text_block_index: None,
            current_text_content_start_index: 0,
            current_text_content_start_byte: 0,
            current_tool_block_index: None,
            current_tool_use_start_index: 0,
            current_tool_use_start_byte: 0,
            current_tool_closing_tag: Vec::new(),
            current_tool_is_write_to_file: false,
            current_param_name: None,
            current_param_value_start_index: 0,
            current_param_value_start_byte: 0,
            accumulator: TextBuf::new(),
            iter_idx: 0,
        };
        proof {
            lemma_byte_offset_full(r.accumulator@);
            assert(r@.blocks =~= Seq::<BlockView>::empty());
            lemma_initial_wf(r@);
            assert(r.tool_opening_tags@.len() == r.tool_names@.len());
        }
        r
    }

    /// Clears everything read; the tools and parameter names are kept.
    pub fn reset(&mut self)
        requires
            old(self).wf(),
        ensures
            final(self).wf(),
            final(self)@ == reset(old(self)@),
            final(self)@ == initial_view(old(self)@.tool_names, old(self)@.param_names),
    {
        self.content_blocks = Vec::new();
        self.current_text_block_index = None;
        self.current_text_content_start_index = 0;
        self.current_text_content_start_byte = 0;
        self.current_tool_block_index = None;
        self.current_tool_use_start_index = 0;
        self.current_tool_use_start_byte = 0;
        self.current_param_name = None;
        self.current_param_value_start_index = 0;
        self.current_param_value_start_byte = 0;
        self.accumulator.clear();
        self.iter_idx = 0;
        proof {
            lemma_byte_offset_full(self.accumulator@);
            assert(self@.blocks =~= Seq::<BlockView>::empty());
            lemma_reset_wf(old(self)@);
            assert(self@ == reset(old(self)@));
        }
    }

    /// Marks every block complete and trims the text blocks.
    pub fn finalize_content_blocks(&mut self)
        requires
            old(self).wf(),
        ensures
            final(self).wf(),
            final(self)@ == finalize(old(self)@),
    {
        let ghost m = self@;
        proof {
            lemma_finalize_wf(m);
        }
        let n = self.content_blocks.len();
        let mut i: usize = 0;
        while i < n
            invariant
                n == self.content_blocks@.len(),
                i <= n,
                self.content_blocks@.len() == m.blocks.len(),
                forall|j: int| 0 <= j < i ==> (#[trigger] self.content_blocks@[j])@ == finalize_block(m.blocks[j]),
                forall|j: int| i <= j < n ==> (#[trigger] self.content_blocks@[j])@ == m.blocks[j],
                forall|j: int| 0 <= j < n ==> (#[trigger] self.content_blocks@[j]).wf(),
                self.accumulator@ == m.acc,
                self.tool_names@ == old(self).tool_names@,
                self.tool_param_names@ == old(self).tool_param_names@,
                self.tool_opening_tags@ == old(self).tool_opening_tags@,
                self.param_opening_tags@ == old(self).param_opening_tags@,
                self.default_tool_prefixes@ == old(self).default_tool_prefixes@,
                self.accumulator == old(self).accumulator,
                self.current_text_block_index == old(self).current_text_block_index,
                self.current_text_content_start_index == old(self).current_text_content_start_index,
                self.current_text_content_start_byte == old(self).current_text_content_start_byte,
                self.current_tool_block_index == old(self).current_tool_block_index,
                self.current_tool_use_start_index == old(self).current_tool_use_start_index,
                self.current_tool_use_start_byte == old(self).current_tool_use_start_byte,
                self.current_tool_closing_tag == old(self).current_tool_closing_tag,
                self.current_tool_is_write_to_file == old(self).current_tool_is_write_to_file,
                self.current_param_name == old(self).current_param_name,
                self.current_param_value_start_index == old(self).current_param_value_start_index,
                self.current_param_value_start_byte == old(self).current_param_value_start_byte,
                self.iter_idx == old(self).iter_idx,
            decreases n - i,
        {
            match &mut self.content_blocks[i] {
                ContentBlock::Text(text) => {
                    text.partial = false;
                    let chars = string_chars(&text.content);
                    let trimmed = trim_chars(&chars);
                    text.content = string_from_chars(&trimmed);
                },
                ContentBlock::ToolUse(tool) => {
                    tool.partial = false;
                },
            }
            i = i + 1;
        }
        proof {
            assert(blocks_of(self.content_blocks@) =~= finalize(m).blocks);
            assert(self@ == finalize(m));
        }
    }

    /// Whether the last block is text that cannot be the start of a tool
    /// tag (its content does not end with a held-back prefix).
    pub fn is_last_block_text_surely(&self, _content: &str) -> (r: bool)
        requires
            self.wf(),
        ensures
            r == last_block_text_surely(self@),
    {
        let n = self.content_blocks.len();
        if n == 0 {
            return false;
        }
        match &self.content_blocks[n - 1] {
            ContentBlock::Text(text) => {
                let chars = string_chars(&text.content);
                proof {
                    assert(self@.blocks.last() == self.content_blocks@[n - 1]@);
                }
                let mut i: usize = 0;
                while i < self.default_tool_prefixes.len()
                    invariant
                        i <= self.default_tool_prefixes@.len(),
                        chars@ == text.content@,
                        n == self.content_blocks@.len(),
                        n > 0,
                        self@.blocks.last() == self.content_blocks@[n - 1]@,
                        self.content_blocks@[n - 1]@ matches BlockView::Text { content, .. }
                            && content == chars@,
                        forall|j: int|
                            0 <= j < i ==> !ends_with(chars@, #[trigger] self@.prefixes[j]),
                    decreases self.default_tool_prefixes@.len() - i,
                {
                    proof {
                        assert(self@.prefixes[i as int] == self.default_tool_prefixes@[i as int]@);
                    }
                    if vec_ends_with(&chars, &self.default_tool_prefixes[i]) {
                        proof {
                            assert(self@.blocks.last() == self.content_blocks@[n - 1]@);
                        }
                        return false;
                    }
                    i = i + 1;
                }
                proof {
                    assert(self@.blocks.last() == self.content_blocks@[n - 1]@);
                }
                true
            },
            ContentBlock::ToolUse(_) => false,
        }
    }

    /// The text blocks joined with single spaces.
    fn joined_text_chars(&self) -> (r: Vec<char>)
        ensures
            r@ == joined_text(self@),
    {
        let ghost bl = self@.blocks;
        let mut r: Vec<char> = Vec::new();
        let mut parts: usize = 0;
        let mut i: usize = 0;
        proof {
            assert(bl.take(0) =~= Seq::<BlockView>::empty());
        }
        while i < self.content_blocks.len()
            invariant
                i <= self.content_blocks@.len(),
                bl == blocks_of(self.content_blocks@),
                bl.len() == self.content_blocks@.len(),
                r@ == join_spaced(text_parts(bl.take(i as int))),
                parts as int == text_parts(bl.take(i as int)).len(),
                parts <= i,
            decreases self.content_blocks@.len() - i,
        {
            proof {
                lemma_text_parts_take(bl, i as int);
                assert(bl[i as int] == self.content_blocks@[i as int]@);
            }
            match &self.content_blocks[i] {
                ContentBlock::Text(text) => {
                    let c = string_chars(&text.content);
                    proof {
                        lemma_join_push(text_parts(bl.take(i as int)), c@);
                    }
                    if parts > 0 {
                        r.push(' ');
                    }
                    r = concat_chars(&r, &c);
                    proof {
                        if parts > 0 {
                            assert(r@ =~= join_spaced(text_parts(bl.take(i as int))) + seq![' '] + c@);
                        } else {
                            assert(r@ =~= c@);
                        }
                    }
                    parts = parts + 1;
                },
                ContentBlock::ToolUse(_) => {},
            }
            i = i + 1;
        }
        proof {
            assert(bl.take(i as int) =~= bl);
        }
        r
    }

    /// The joined text, its byte length, and where streaming must stop
    /// (characters, bytes).
    fn stream_plan(&self) -> (r: (Vec<char>, usize, usize, usize))
        requires
            self.wf(),
        ensures
            r.0@ == joined_text(self@),
            r.1 == utf8_len(joined_text(self@)),
            r.1 <= 2 * MAX_ACCUMULATOR_SIZE,
            r.2 == stream_end_index(self@),
            r.3 == stream_end(self@),
            r.2 <= r.0@.len(),
            r.3 == byte_offset(r.0@, r.2 as int),
    {
        let ghost m = self@;
        let tc = self.joined_text_chars();
        proof {
            lemma_joined_text_bound(m);
        }
        let nb = utf8_len_capped(&tc, 2 * MAX_ACCUMULATOR_SIZE);
        proof {
            lemma_byte_offset_full(tc@);
        }
        let mut i: usize = 0;
        while i < self.default_tool_prefixes.len()
            invariant
                self.wf(),
                self@ == m,
                tc@ == joined_text(m),
                nb == utf8_len(tc@),
                nb <= 2 * MAX_ACCUMULATOR_SIZE,
                i <= self.default_tool_prefixes@.len(),
                forall|j: int| 0 <= j < i ==> !ends_with(tc@, #[trigger] m.prefixes[j]),
            decreases self.default_tool_prefixes@.len() - i,
        {
            proof {
                assert(m.prefixes[i as int] == self.default_tool_prefixes@[i as int]@);
            }
            if vec_ends_with(&tc, &self.default_tool_prefixes[i]) {
                let p = &self.default_tool_prefixes[i];
                let ek = tc.len() - p.len();
                proof {
                    let f = |q: Seq<char>| ends_with(joined_text(m), q);
                    assert(is_first_index(m.prefixes, f, i as int));
                    lemma_first_index_found(m.prefixes, f, i as int);
                    assert(tc@ =~= tc@.take(ek as int) + p@);
                    lemma_utf8_len_concat(tc@.take(ek as int), p@);
                }
                let pb = utf8_len_capped(p, nb);
                let eb = nb - pb;
                return (tc, nb, ek, eb);
            }
            i = i + 1;
        }
        proof {
            let f = |q: Seq<char>| ends_with(joined_text(m), q);
            lemma_first_index_none(m.prefixes, f);
        }
        let n = tc.len();
        (tc, nb, n, nb)
    }

    /// Whether the next piece of streamed text starts on a character
    /// boundary (where it does not, the cut would split a character).
    pub fn next_text_chunk_defined(&self) -> (r: bool)
        requires
            self.wf(),
        ensures
            r == next_chunk_defined(self@),
    {
        let (tc, nb, _ek, eb) = self.stream_plan();
        if self.iter_idx >= nb || self.iter_idx >= eb {
            return true;
        }
        let (_k, ok) = char_index_for_byte(&tc, self.iter_idx);
        ok
    }

    /// The text streamed since the last call: everything up to a trailing
    /// prefix of a tool tag, which is held back. `None` when there is
    /// nothing new.
    pub fn next_text_chunk(&mut self) -> (r: Option<String>)
        requires
            old(self).wf(),
            next_chunk_defined(old(self)@),
        ensures
            final(self).wf(),
            has_next_chunk(old(self)@) ==> (r matches Some(c) && c@ == next_chunk(old(self)@)
                && c@.len() > 0),
            has_next_chunk(old(self)@) ==> final(self)@ == (ParserView {
                cursor: stream_end(old(self)@),
                ..old(self)@
            }),
            !has_next_chunk(old(self)@) ==> r is None && final(self)@ == old(self)@,
    {
        let ghost m = self@;
        let (tc, nb, ek, eb) = self.stream_plan();
        if self.iter_idx >= nb || self.iter_idx >= eb {
            return None;
        }
        let (ci, _ok) = char_index_for_byte(&tc, self.iter_idx);
        proof {
            lemma_byte_offset_full(tc@);
            assert(char_index_at_byte(tc@, self.iter_idx as int) == Some(ci as int));
            let k = choose|k: int| 0 <= k <= tc@.len() && byte_offset(tc@, k) == self.iter_idx;
            assert(k == ci);
            if ci > ek {
                lemma_byte_offset_mono(tc@, ek as int, ci as int);
            }
        }
        let piece = subrange_chars(&tc, ci, ek);
        let chunk = string_from_chars(&piece);
        self.iter_idx = eb;
        proof {
            assert(self@ == (ParserView { cursor: stream_end(m), ..m }));
        }
        Some(chunk)
    }

    /// Whether `process_chunk` can take `chunk`: it is refused as too large,
    /// or every one of its characters can be read.
    pub fn can_process_chunk(&self, chunk: &str) -> (r: bool)
        requires
            self.wf(),
        ensures
            r == chunk_accepted(self@, chunk@),
    {
        let cs = str_chars(chunk);
        let cap = MAX_ACCUMULATOR_SIZE - self.accumulator.byte_len();
        if utf8_len_capped(&cs, cap) > cap {
            return true;
        }
        let mut p = self.clone();
        proof {
            assert(cs@.skip(0) =~= cs@);
        }
        let mut i: usize = 0;
        while i < cs.len()
            invariant
                p.wf(),
                i <= cs@.len(),
                cs@ == chunk@,
                chunk_fits(self@, chunk@),
                chunk_fits(p@, cs@.skip(i as int)),
                feed(self@, chunk@) == feed(p@, cs@.skip(i as int)),
            decreases cs@.len() - i,
        {
            let ghost rest = cs@.skip(i as int);
            proof {
                assert(rest[0] == cs@[i as int]);
                assert(rest.drop_first() =~= cs@.skip(i as int + 1));
                lemma_utf8_len_first(rest);
                crate::text::lemma_utf8_len_push(p@.acc, rest[0]);
            }
            if !p.step(cs[i]) {
                return false;
            }
            i = i + 1;
        }
        proof {
            assert(cs@.skip(i as int) =~= Seq::<char>::empty());
        }
        true
    }
}

impl AssistantMessageParser {
    /// A parser's abstract state is a reachable one, so the laws apply to it.
    pub proof fn lemma_view_wf(&self)
        requires
            self.wf(),
        ensures
            view_wf(self@),
            self@.prefixes == sorted_default_prefixes(),
            sorted_by(self@.prefixes, lex_order()),
            self@.prefixes.to_multiset() == unsorted_default_prefixes().to_multiset(),
    {
    }

    /// `process_chunk` where the chunk can be taken; `None`, with nothing
    /// changed, where reading it would split a character when closing a text
    /// block.
    pub fn try_process_chunk(&mut self, chunk: &str) -> (r: Option<Result<Vec<ContentBlock>, ParserError>>)
        requires
            old(self).wf(),
        ensures
            final(self).wf(),
            r is None <==> !chunk_accepted(old(self)@, chunk@),
            r is None ==> final(self)@ == old(self)@,
            r is Some && chunk_fits(old(self)@, chunk@) ==> final(self)@ == feed(old(self)@, chunk@)->0
                && (r matches Some(Ok(v)) && blocks_of(v@) == final(self)@.blocks && forall|i: int|
                0 <= i < v@.len() ==> (#[trigger] v@[i]).wf()),
            r is Some && !chunk_fits(old(self)@, chunk@) ==> r == Some(
                Err::<Vec<ContentBlock>, ParserError>(ParserError::MessageTooLarge),
            ) && final(self)@ == old(self)@,
    {
        if !self.can_process_chunk(chunk) {
            return None;
        }
        Some(self.process_chunk(chunk))
    }

    /// `next_text_chunk` where the next piece starts on a character
    /// boundary; `None`, with nothing changed, where it does not.
    pub fn try_next_text_chunk(&mut self) -> (r: Option<Option<String>>)
        requires
            old(self).wf(),
        ensures
            final(self).wf(),
            r is None <==> !next_chunk_defined(old(self)@),
            r is None ==> final(self)@ == old(self)@,
            r is Some && has_next_chunk(old(self)@) ==> (r matches Some(Some(c)) && c@ == next_chunk(
                old(self)@,
            ) && c@.len() > 0) && final(self)@ == (ParserView { cursor: stream_end(old(self)@), ..old(self)@ }),
            r is Some && !has_next_chunk(old(self)@) ==> r == Some(None::<String>) && final(self)@
                == old(self)@,
    {
        if !self.next_text_chunk_defined() {
            return None;
        }
        Some(self.next_text_chunk())
    }
}

impl Clone for AssistantMessageParser {
    fn clone(&self) -> (r: Self)
        ensures
            self.wf() ==> r.wf() && r@ == self@,
    {
        let r = AssistantMessageParser {
            tool_names: clone_seqs(&self.tool_names),
            tool_param_names: clone_seqs(&self.tool_param_names),
            tool_opening_tags: clone_seqs(&self.tool_opening_tags),
            param_opening_tags: clone_seqs(&self.param_opening_tags),
            default_tool_prefixes: clone_seqs(&self.default_tool_prefixes),
            content_blocks: self.content_blocks.clone(),
            current_text_block_index: self.current_text_block_index,
            current_text_content_start_index: self.current_text_content_start_index,
            current_text_content_start_byte: self.current_text_content_start_byte,
            current_tool_block_index: self.current_tool_block_index,
            current_tool_use_start_index: self.current_tool_use_start_index,
            current_tool_use_start_byte: self.current_tool_use_start_byte,
            current_tool_closing_tag: self.current_tool_closing_tag.clone(),
            current_tool_is_write_to_file: self.current_tool_is_write_to_file,
            current_param_name: self.current_param_name,
            current_param_value_start_index: self.current_param_value_start_index,
            current_param_value_start_byte: self.current_param_value_start_byte,
            accumulator: self.accumulator.clone_buf(),
            iter_idx: self.iter_idx,
        };
        proof {
            assert forall|i: int| 0 <= i < r.content_blocks@.len() implies r.content_blocks@[i]@
                == self.content_blocks@[i]@ && (self.content_blocks@[i].wf()
                ==> r.content_blocks@[i].wf()) by {
                assert(vstd::pervasive::cloned::<ContentBlock>(self.content_blocks@[i], r.content_blocks@[i]));
            }
            assert(seqs_of(r.tool_names@) =~= seqs_of(self.tool_names@));
            assert(seqs_of(r.tool_param_names@) =~= seqs_of(self.tool_param_names@));
            assert(seqs_of(r.default_tool_prefixes@) =~= seqs_of(self.default_tool_prefixes@));
            assert(blocks_of(r.content_blocks@) =~= blocks_of(self.content_blocks@));
            if self.wf() {
                assert(r@ == self@);
            }
        }
        r
    }
}

impl Default for AssistantMessageParser {
    /// A parser for the built-in tools.
    fn default() -> (r: Self)
        ensures
            r.wf(),
            is_initial(r@),
            r@.tool_names == default_tool_names_spec(),
            r@.param_names == default_tool_param_names_spec(),
            sorted_by(r@.prefixes, lex_order()),
            r@.prefixes.to_multiset() == unsorted_default_prefixes().to_multiset(),
            r@ == initial_view(default_tool_names_spec(), default_tool_param_names_spec()),
    {
        AssistantMessageParser::new(None, None)
    }
}

} // verus!
