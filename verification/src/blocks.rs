//! The content blocks that the parser emits: plain text and tool calls.
use vstd::prelude::*;

verus! {

/// A tool call's parameters, in the order in which they were first set.
/// Each key occurs at most once.
#[derive(Debug, PartialEq, Eq)]
pub struct ToolParams {
    entries: Vec<(String, String)>,
}

/// Abstract parameters: (key, value) pairs in insertion order.
pub type ParamsView = Seq<(Seq<char>, Seq<char>)>;

impl View for ToolParams {
    type V = ParamsView;

    closed spec fn view(&self) -> ParamsView {
        self.entries@.map_values(|e: (String, String)| (e.0@, e.1@))
    }
}

/// No key occurs twice.
pub open spec fn keys_unique(ps: ParamsView) -> bool {
    forall|i: int, j: int| 0 <= i < j < ps.len() ==> ps[i].0 != ps[j].0
}

/// `i` is the first position of key `k` in `ps`.
pub open spec fn is_first_key_position(ps: ParamsView, k: Seq<char>, i: int) -> bool {
    &&& 0 <= i < ps.len()
    &&& ps[i].0 == k
    &&& forall|j: int| 0 <= j < i ==> ps[j].0 != k
}

/// The first position of key `k` in `ps`, if any.
pub open spec fn key_position(ps: ParamsView, k: Seq<char>) -> Option<int> {
    if exists|i: int| is_first_key_position(ps, k, i) {
        Some(choose|i: int| is_first_key_position(ps, k, i))
    } else {
        None
    }
}

/// The value stored under key `k`.
pub open spec fn params_get(ps: ParamsView, k: Seq<char>) -> Option<Seq<char>> {
    match key_position(ps, k) {
        Some(i) => Some(ps[i].1),
        None => None,
    }
}

/// `ps` with key `k` set to `v`: replaced in place if present, appended
/// otherwise.
pub open spec fn params_set(ps: ParamsView, k: Seq<char>, v: Seq<char>) -> ParamsView {
    match key_position(ps, k) {
        Some(i) => ps.update(i, (k, v)),
        None => ps.push((k, v)),
    }
}

pub proof fn lemma_key_position_found(ps: ParamsView, k: Seq<char>, i: int)
    requires
        is_first_key_position(ps, k, i),
    ensures
        key_position(ps, k) == Some(i),
{
    let i2 = choose|i2: int| is_first_key_position(ps, k, i2);
    assert(is_first_key_position(ps, k, i2));
    if i2 < i {
        assert(ps[i2].0 == k);
    } else if i < i2 {
        assert(ps[i].0 == k);
    }
}

pub proof fn lemma_key_position_absent(ps: ParamsView, k: Seq<char>)
    requires
        forall|j: int| 0 <= j < ps.len() ==> ps[j].0 != k,
    ensures
        key_position(ps, k) == None::<int>,
{
}

/// Setting a key keeps the keys unique.
pub proof fn lemma_params_set_unique(ps: ParamsView, k: Seq<char>, v: Seq<char>)
    requires
        keys_unique(ps),
    ensures
        keys_unique(params_set(ps, k, v)),
        forall|j: int|
            0 <= j < params_set(ps, k, v).len() ==> (#[trigger] params_set(ps, k, v)[j]).0 == k || (
            j < ps.len() && params_set(ps, k, v)[j] == ps[j]),
        params_get(params_set(ps, k, v), k) == Some(v),
{
    let r = params_set(ps, k, v);
    match key_position(ps, k) {
        Some(i) => {
            let i2 = choose|i2: int| is_first_key_position(ps, k, i2);
            assert(is_first_key_position(ps, k, i2));
            assert forall|j: int| 0 <= j < i2 implies r[j].0 != k by {
                assert(r[j] == ps[j]);
            }
            assert(is_first_key_position(r, k, i2));
            lemma_key_position_found(r, k, i2);
        },
        None => {
            assert forall|j: int| 0 <= j < ps.len() implies ps[j].0 != k by {
                if ps[j].0 == k {
                    assert(is_first_key_position(ps, k, j)) by {
                        assert forall|j2: int| 0 <= j2 < j implies ps[j2].0 != k by {
                            if ps[j2].0 == k {
                                assert(ps[j2].0 == ps[j].0);
                            }
                        }
                    }
                }
            }
            assert(is_first_key_position(r, k, ps.len() as int));
            lemma_key_position_found(r, k, ps.len() as int);
        },
    }
}

impl ToolParams {
    /// Keys are unique.
    pub open spec fn wf(&self) -> bool {
        keys_unique(self@)
    }

    /// No parameters.
    pub fn new() -> (r: Self)
        ensures
            r@ == Seq::<(Seq<char>, Seq<char>)>::empty(),
            r.wf(),
    {
        let r = ToolParams { entries: Vec::new() };
        assert(r@ =~= Seq::<(Seq<char>, Seq<char>)>::empty());
        r
    }

    /// Number of parameters.
    pub fn len(&self) -> (r: usize)
        ensures
            r == self@.len(),
    {
        self.entries.len()
    }

    /// Whether there are no parameters.
    pub fn is_empty(&self) -> (r: bool)
        ensures
            r == (self@.len() == 0),
    {
        self.entries.len() == 0
    }

    fn position(&self, key: &String) -> (r: Option<usize>)
        ensures
            r matches Some(i) ==> key_position(self@, key@) == Some(i as int) && i < self@.len(),
            r is None ==> key_position(self@, key@) is None,
    {
        let mut i: usize = 0;
        while i < self.entries.len()
            invariant
                i <= self@.len(),
                self@.len() == self.entries@.len(),
                forall|j: int| 0 <= j < i ==> self@[j].0 != key@,
            decreases self@.len() - i,
        {
            if self.entries[i].0 == *key {
                proof {
                    assert(self@[i as int].0 == key@);
                    lemma_key_position_found(self@, key@, i as int);
                }
                return Some(i);
            }
            assert(self@[i as int].0 != key@);
            i = i + 1;
        }
        proof {
            lemma_key_position_absent(self@, key@);
        }
        None
    }

    /// The value stored under `key`.
    pub fn get(&self, key: &str) -> (r: Option<&String>)
        ensures
            match r {
                Some(v) => params_get(self@, key@) == Some(v@),
                None => params_get(self@, key@) is None,
            },
    {
        let k = key.to_owned();
        match self.position(&k) {
            Some(i) => {
                assert(self@[i as int] == (self.entries@[i as int].0@, self.entries@[i as int].1@));
                Some(&self.entries[i].1)
            },
            None => None,
        }
    }

    /// Sets `key` to `value`, in place if the key is present, else at the end.
    pub fn insert(&mut self, key: String, value: String)
        ensures
            final(self)@ == params_set(old(self)@, key@, value@),
            old(self).wf() ==> final(self).wf(),
    {
        proof {
            if old(self).wf() {
                lemma_params_set_unique(old(self)@, key@, value@);
            }
        }
        match self.position(&key) {
            Some(i) => {
                self.entries.set(i, (key, value));
                assert(self@ =~= old(self)@.update(i as int, (key@, value@)));
            },
            None => {
                self.entries.push((key, value));
                assert(self@ =~= old(self)@.push((key@, value@)));
            },
        }
    }

    /// The (key, value) pairs, in the order in which the keys were first set.
    pub fn entries(&self) -> (r: Vec<(String, String)>)
        ensures
            r@.map_values(|e: (String, String)| (e.0@, e.1@)) == self@,
    {
        self.clone_params().entries
    }

    fn clone_params(&self) -> (r: Self)
        ensures
            r@ == self@,
    {
        let mut entries: Vec<(String, String)> = Vec::new();
        let mut i: usize = 0;
        while i < self.entries.len()
            invariant
                i <= self.entries@.len(),
                entries@.len() == i,
                forall|j: int|
                    0 <= j < i ==> (#[trigger] entries@[j]).0@ == self.entries@[j].0@ && entries@[j].1@
                        == self.entries@[j].1@,
            decreases self.entries@.len() - i,
        {
            let k = self.entries[i].0.clone();
            let v = self.entries[i].1.clone();
            entries.push((k, v));
            i = i + 1;
        }
        let r = ToolParams { entries };
        assert(r@ =~= self@);
        r
    }
}

impl Clone for ToolParams {
    fn clone(&self) -> (r: Self)
        ensures
            r@ == self@,
    {
        self.clone_params()
    }
}

/// The rendering of parameters as `\n<key>value</key>` lines.
pub open spec fn params_xml(ps: ParamsView) -> Seq<char>
    decreases ps.len(),
{
    if ps.len() == 0 {
        Seq::empty()
    } else {
        let (k, v) = ps.last();
        params_xml(ps.drop_last()) + "\n<"@ + k + ">"@ + v + "</"@ + k + ">"@
    }
}

/// The rendering of a tool call: its opening tag, one line per parameter,
/// and its closing tag on a line of its own.
pub open spec fn tool_xml(name: Seq<char>, ps: ParamsView) -> Seq<char> {
    "<"@ + name + ">"@ + params_xml(ps) + "\n</"@ + name + ">"@
}

/// Normal assistant text.
#[derive(Debug, PartialEq, Eq)]
pub struct TextContent {
    pub block_type: &'static str,
    pub content: String,
    pub partial: bool,
}

impl TextContent {
    /// A text block; its type is `"text"`.
    pub fn new(content: String, partial: bool) -> (r: Self)
        ensures
            r.block_type@ == "text"@,
            r.content@ == content@,
            r.partial == partial,
    {
        TextContent { block_type: "text", content, partial }
    }

    /// The text itself.
    pub fn to_xml(&self) -> (r: &str)
        ensures
            r@ == self.content@,
    {
        self.content.as_str()
    }
}

impl Clone for TextContent {
    fn clone(&self) -> (r: Self)
        ensures
            r == *self,
    {
        TextContent { block_type: self.block_type, content: self.content.clone(), partial: self.partial }
    }
}

/// A call of a tool, with the parameters read so far.
#[derive(Debug, PartialEq, Eq)]
pub struct ToolUse {
    pub block_type: &'static str,
    pub name: String,
    pub params: ToolParams,
    pub partial: bool,
}

impl ToolUse {
    /// A tool block with no parameters; its type is `"tool_use"`.
    pub fn new(name: String, partial: bool) -> (r: Self)
        ensures
            r.block_type@ == "tool_use"@,
            r.name@ == name@,
            r.params@ == Seq::<(Seq<char>, Seq<char>)>::empty(),
            r.params.wf(),
            r.partial == partial,
    {
        ToolUse { block_type: "tool_use", name, params: ToolParams::new(), partial }
    }

    /// The call written back as XML.
    pub fn to_xml(&self) -> (r: String)
        ensures
            r@ == tool_xml(self.name@, self.params@),
    {
        let mut xml = String::new();
        xml.append("<");
        xml.append(self.name.as_str());
        xml.append(">");
        let ghost head = xml@;
        let mut i: usize = 0;
        while i < self.params.entries.len()
            invariant
                i <= self.params@.len(),
                self.params@.len() == self.params.entries@.len(),
                xml@ == head + params_xml(self.params@.take(i as int)),
            decreases self.params@.len() - i,
        {
            let key = &self.params.entries[i].0;
            let value = &self.params.entries[i].1;
            let ghost before = xml@;
            xml.append("\n<");
            xml.append(key.as_str());
            xml.append(">");
            xml.append(value.as_str());
            xml.append("</");
            xml.append(key.as_str());
            xml.append(">");
            proof {
                let t = self.params@.take(i as int + 1);
                assert(t.drop_last() =~= self.params@.take(i as int));
                assert(t.last() == self.params@[i as int]);
                assert(self.params@[i as int] == (key@, value@));
                assert(xml@ =~= before + "\n<"@ + key@ + ">"@ + value@ + "</"@ + key@ + ">"@);
                assert(params_xml(t) == params_xml(t.drop_last()) + "\n<"@ + key@ + ">"@ + value@ + "</"@ + key@ + ">"@);
                assert(xml@ =~= head + params_xml(t));
            }
            i = i + 1;
        }
        let ghost body = xml@;
        xml.append("\n</");
        xml.append(self.name.as_str());
        xml.append(">");
        proof {
            assert(self.params@.take(self.params@.len() as int) =~= self.params@);
            assert(xml@ =~= body + "\n</"@ + self.name@ + ">"@);
            assert(xml@ =~= tool_xml(self.name@, self.params@));
        }
        xml
    }
}

impl Clone for ToolUse {
    fn clone(&self) -> (r: Self)
        ensures
            r.block_type == self.block_type,
            r.name == self.name,
            r.params@ == self.params@,
            r.partial == self.partial,
    {
        ToolUse {
            block_type: self.block_type,
            name: self.name.clone(),
            params: self.params.clone(),
            partial: self.partial,
        }
    }
}

/// Abstract content block.
pub enum BlockView {
    Text { content: Seq<char>, partial: bool },
    Tool { name: Seq<char>, params: ParamsView, partial: bool },
}

impl BlockView {
    pub open spec fn is_partial(self) -> bool {
        match self {
            BlockView::Text { partial, .. } => partial,
            BlockView::Tool { partial, .. } => partial,
        }
    }
}

/// A block of the parsed message.
#[derive(Debug, PartialEq, Eq)]
pub enum ContentBlock {
    Text(TextContent),
    ToolUse(ToolUse),
}

impl View for ContentBlock {
    type V = BlockView;

    open spec fn view(&self) -> BlockView {
        match self {
            ContentBlock::Text(t) => BlockView::Text { content: t.content@, partial: t.partial },
            ContentBlock::ToolUse(t) => BlockView::Tool {
                name: t.name@,
                params: t.params@,
                partial: t.partial,
            },
        }
    }
}

impl ContentBlock {
    /// The block's type tag is the one of its kind, and tool parameters have
    /// unique keys.
    pub open spec fn wf(&self) -> bool {
        match self {
            ContentBlock::Text(t) => t.block_type@ == "text"@,
            ContentBlock::ToolUse(t) => t.block_type@ == "tool_use"@ && t.params.wf(),
        }
    }

    pub fn is_text(&self) -> (r: bool)
        ensures
            r == (self@ is Text),
    {
        match self {
            ContentBlock::Text(_) => true,
            ContentBlock::ToolUse(_) => false,
        }
    }

    pub fn is_tool_use(&self) -> (r: bool)
        ensures
            r == (self@ is Tool),
    {
        match self {
            ContentBlock::Text(_) => false,
            ContentBlock::ToolUse(_) => true,
        }
    }

    pub fn partial(&self) -> (r: bool)
        ensures
            r == self@.is_partial(),
    {
        match self {
            ContentBlock::Text(block) => block.partial,
            ContentBlock::ToolUse(block) => block.partial,
        }
    }
}

impl Clone for ContentBlock {
    fn clone(&self) -> (r: Self)
        ensures
            r@ == self@,
            self.wf() ==> r.wf(),
    {
        match self {
            ContentBlock::Text(t) => ContentBlock::Text(t.clone()),
            ContentBlock::ToolUse(t) => ContentBlock::ToolUse(t.clone()),
        }
    }
}

/// Why a chunk was refused.
#[derive(Debug, Clone, Copy, PartialEq, Eq, Structural)]
pub enum ParserError {
    MessageTooLarge,
}

impl ParserError {
    /// The error's message.
    pub fn to_string(&self) -> (r: String)
        ensures
            r@ == "Assistant message exceeds maximum allowed size"@,
    {
        match self {
            ParserError::MessageTooLarge => "Assistant message exceeds maximum allowed size".to_owned(),
        }
    }
}

} // verus!
