//! The built-in tool set and the tag prefixes derived from it.
use vstd::prelude::*;
use vstd::relations::sorted_by;
use crate::text::{str_chars, string_from_chars};

verus! {

broadcast use vstd::seq_lib::group_to_multiset_ensures;

/// The built-in tools, each with the names of its parameters.
pub open spec fn default_tools() -> Seq<(Seq<char>, Seq<Seq<char>>)> {
    seq![
        ("write_to_file"@, seq!["path"@, "content"@, "line_count"@]),
        ("update_todo_list"@, seq!["todos"@]),
        ("search_files"@, seq!["path"@, "regex"@, "file_pattern"@]),
        ("search_and_replace"@, seq![
            "path"@,
            "search"@,
            "replace"@,
            "start_line"@,
            "end_line"@,
            "use_regex"@,
            "ignore_case"@,
        ]),
        ("read_file"@, seq!["args"@]),
        ("list_files"@, seq!["path"@, "recursive"@]),
        ("insert_content"@, seq!["path"@, "line"@, "content"@]),
        ("execute_command"@, seq!["command"@, "cwd"@]),
        ("attempt_completion"@, seq!["result"@]),
        ("ask_followup_question"@, seq!["question"@, "follow_up"@]),
        ("new_task"@, seq!["mode"@, "message"@]),
        ("workflow_search"@, seq![
            "q"@,
            "trigger"@,
            "complexity"@,
            "active_only"@,
            "page"@,
            "per_page"@,
        ]),
    ]
}

/// The names of the built-in tools, in table order.
pub open spec fn default_tool_names_spec() -> Seq<Seq<char>> {
    default_tools().map_values(|t: (Seq<char>, Seq<Seq<char>>)| t.0)
}

/// The parameter names of the built-in tools, tool after tool.
pub open spec fn default_tool_param_names_spec() -> Seq<Seq<char>> {
    default_tools().map_values(|t: (Seq<char>, Seq<Seq<char>>)| t.1).flatten()
}

/// The built-in tools, each with the names of its parameters.
pub fn default_tools_table() -> (r: Vec<(&'static str, Vec<&'static str>)>)
    ensures
        r@.len() == default_tools().len(),
        forall|i: int|
            0 <= i < r@.len() ==> (#[trigger] r@[i]).0@ == default_tools()[i].0 && r@[i].1@.map_values(
                |s: &str| s@,
            ) == default_tools()[i].1,
{
    let r = vec![
        ("write_to_file", vec!["path", "content", "line_count"]),
        ("update_todo_list", vec!["todos"]),
        ("search_files", vec!["path", "regex", "file_pattern"]),
        (
            "search_and_replace",
            vec!["path", "search", "replace", "start_line", "end_line", "use_regex", "ignore_case"],
        ),
        ("read_file", vec!["args"]),
        ("list_files", vec!["path", "recursive"]),
        ("insert_content", vec!["path", "line", "content"]),
        ("execute_command", vec!["command", "cwd"]),
        ("attempt_completion", vec!["result"]),
        ("ask_followup_question", vec!["question", "follow_up"]),
        ("new_task", vec!["mode", "message"]),
        ("workflow_search", vec!["q", "trigger", "complexity", "active_only", "page", "per_page"]),
    ];
    assert forall|i: int|
        0 <= i < r@.len() implies (#[trigger] r@[i]).0@ == default_tools()[i].0 && r@[i].1@.map_values(
        |s: &str| s@,
    ) == default_tools()[i].1 by {
        assert(r@[i].1@.map_values(|s: &str| s@) =~= default_tools()[i].1);
    }
    r
}

/// The names of the built-in tools, in table order.
pub fn default_tool_names() -> (r: Vec<String>)
    ensures
        r@.map_values(|s: String| s@) == default_tool_names_spec(),
{
    let table = default_tools_table();
    let mut r: Vec<String> = Vec::new();
    let mut i: usize = 0;
    while i < table.len()
        invariant
            i <= table@.len(),
            table@.len() == default_tools().len(),
            forall|k: int|
                0 <= k < table@.len() ==> (#[trigger] table@[k]).0@ == default_tools()[k].0,
            r@.map_values(|s: String| s@) == default_tool_names_spec().take(i as int),
        decreases table@.len() - i,
    {
        let name = table[i].0.to_owned();
        let ghost old_r = r@;
        r.push(name);
        proof {
            assert(r@ == old_r.push(name));
            assert(r@.map_values(|s: String| s@) =~= old_r.map_values(|s: String| s@).push(name@));
            assert(default_tool_names_spec()[i as int] == default_tools()[i as int].0);
            assert(default_tool_names_spec().take(i as int + 1) =~= default_tool_names_spec().take(
                i as int,
            ).push(default_tool_names_spec()[i as int]));
        }
        i = i + 1;
    }
    proof {
        assert(default_tool_names_spec().take(i as int) =~= default_tool_names_spec());
    }
    r
}

/// The parameter names of the built-in tools, tool after tool.
pub fn default_tool_param_names() -> (r: Vec<String>)
    ensures
        r@.map_values(|s: String| s@) == default_tool_param_names_spec(),
{
    let table = default_tools_table();
    let ghost groups = default_tools().map_values(|t: (Seq<char>, Seq<Seq<char>>)| t.1);
    let mut r: Vec<String> = Vec::new();
    let mut i: usize = 0;
    while i < table.len()
        invariant
            i <= table@.len(),
            table@.len() == default_tools().len(),
            groups == default_tools().map_values(|t: (Seq<char>, Seq<Seq<char>>)| t.1),
            forall|k: int|
                0 <= k < table@.len() ==> (#[trigger] table@[k]).1@.map_values(|s: &str| s@)
                    == default_tools()[k].1,
            r@.map_values(|s: String| s@) == groups.take(i as int).flatten(),
        decreases table@.len() - i,
    {
        let params = &table[i].1;
        let ghost before = r@.map_values(|s: String| s@);
        let mut j: usize = 0;
        while j < params.len()
            invariant
                j <= params@.len(),
                params@.map_values(|s: &str| s@) == default_tools()[i as int].1,
                r@.map_values(|s: String| s@) == before + default_tools()[i as int].1.take(j as int),
            decreases params@.len() - j,
        {
            let p = params[j].to_owned();
            let ghost old_r = r@;
            r.push(p);
            proof {
                assert(params@.map_values(|s: &str| s@)[j as int] == params@[j as int]@);
                assert(r@ == old_r.push(p));
                assert(r@.map_values(|s: String| s@) =~= old_r.map_values(|s: String| s@).push(p@));
                let ps = default_tools()[i as int].1;
                assert(ps.take(j as int + 1) =~= ps.take(j as int).push(ps[j as int]));
                assert(r@.map_values(|s: String| s@) =~= before + default_tools()[i as int].1.take(
                    j as int + 1,
                ));
            }
            j = j + 1;
        }
        proof {
            assert(default_tools()[i as int].1.take(j as int) =~= default_tools()[i as int].1);
            assert(groups.take(i as int + 1) =~= groups.take(i as int).push(groups[i as int]));
            groups.take(i as int).lemma_flatten_push(groups[i as int]);
        }
        i = i + 1;
    }
    proof {
        assert(groups.take(i as int) =~= groups);
    }
    r
}

/// The prefixes `<`, `<n`, `<na`, ..., `<name` of the opening tag of `name`.
pub open spec fn tag_prefixes_of(name: Seq<char>) -> Seq<Seq<char>> {
    Seq::new((name.len() + 1) as nat, |e: int| "<"@ + name.take(e))
}

/// The tag prefixes of all built-in tools, tool after tool, before sorting.
pub open spec fn unsorted_default_prefixes() -> Seq<Seq<char>> {
    default_tool_names_spec().map_values(|n: Seq<char>| tag_prefixes_of(n)).flatten()
}

/// Lexicographic order of character sequences by code point, which is the
/// byte order of their UTF-8 encodings.
pub open spec fn lex_le(a: Seq<char>, b: Seq<char>) -> bool
    decreases a.len(),
{
    if a.len() == 0 {
        true
    } else if b.len() == 0 {
        false
    } else if a[0] != b[0] {
        (a[0] as u32) < (b[0] as u32)
    } else {
        lex_le(a.drop_first(), b.drop_first())
    }
}

/// `lex_le` as a relation.
pub open spec fn lex_order() -> spec_fn(Seq<char>, Seq<char>) -> bool {
    |a: Seq<char>, b: Seq<char>| lex_le(a, b)
}

pub proof fn lemma_lex_total(a: Seq<char>, b: Seq<char>)
    ensures
        lex_le(a, b) || lex_le(b, a),
    decreases a.len(),
{
    if a.len() > 0 && b.len() > 0 && a[0] == b[0] {
        lemma_lex_total(a.drop_first(), b.drop_first());
    } else if a.len() > 0 && b.len() > 0 {
        vstd::utf8::char_u32_cast(a[0], a[0] as u32);
        vstd::utf8::char_u32_cast(b[0], b[0] as u32);
    }
}

pub proof fn lemma_lex_trans(a: Seq<char>, b: Seq<char>, c: Seq<char>)
    requires
        lex_le(a, b),
        lex_le(b, c),
    ensures
        lex_le(a, c),
    decreases a.len(),
{
    if a.len() > 0 && b.len() > 0 && c.len() > 0 {
        if a[0] == b[0] && b[0] == c[0] {
            lemma_lex_trans(a.drop_first(), b.drop_first(), c.drop_first());
        } else {
            vstd::utf8::char_u32_cast(a[0], a[0] as u32);
            vstd::utf8::char_u32_cast(c[0], c[0] as u32);
        }
    }
}

pub proof fn lemma_lex_refl(a: Seq<char>)
    ensures
        lex_le(a, a),
    decreases a.len(),
{
    if a.len() > 0 {
        lemma_lex_refl(a.drop_first());
    }
}

pub proof fn lemma_lex_antisym(a: Seq<char>, b: Seq<char>)
    requires
        lex_le(a, b),
        lex_le(b, a),
    ensures
        a == b,
    decreases a.len(),
{
    if a.len() > 0 && b.len() > 0 {
        if a[0] == b[0] {
            lemma_lex_antisym(a.drop_first(), b.drop_first());
            assert(a =~= seq![a[0]] + a.drop_first());
            assert(b =~= seq![b[0]] + b.drop_first());
        }
    } else {
        assert(a =~= b);
    }
}

/// Two sorted sequences with the same elements are equal.
pub proof fn lemma_sorted_unique(a: Seq<Seq<char>>, b: Seq<Seq<char>>)
    requires
        sorted_by(a, lex_order()),
        sorted_by(b, lex_order()),
        a.to_multiset() == b.to_multiset(),
    ensures
        a == b,
    decreases a.len(),
{
    vstd::seq_lib::to_multiset_len(a);
    vstd::seq_lib::to_multiset_len(b);
    if a.len() > 0 {
        let x = a[0];
        let y = b[0];
        vstd::seq_lib::to_multiset_contains(a, x);
        vstd::seq_lib::to_multiset_contains(b, x);
        vstd::seq_lib::to_multiset_contains(b, y);
        vstd::seq_lib::to_multiset_contains(a, y);
        assert(a.contains(x));
        let j = choose|j: int| 0 <= j < b.len() && b[j] == x;
        if j > 0 {
            assert(lex_order()(b[0], b[j]));
        } else {
            lemma_lex_refl(x);
        }
        let k = choose|k: int| 0 <= k < a.len() && a[k] == y;
        if k > 0 {
            assert(lex_order()(a[0], a[k]));
        } else {
            lemma_lex_refl(y);
        }
        lemma_lex_antisym(x, y);
        vstd::seq_lib::to_multiset_remove(a, 0);
        vstd::seq_lib::to_multiset_remove(b, 0);
        assert(a.remove(0) =~= a.drop_first());
        assert(b.remove(0) =~= b.drop_first());
        assert forall|i: int, j2: int| 0 <= i < j2 < a.drop_first().len() implies #[trigger] lex_order()(
            a.drop_first()[i],
            a.drop_first()[j2],
        ) by {
            assert(lex_order()(a[i + 1], a[j2 + 1]));
        }
        assert forall|i: int, j2: int| 0 <= i < j2 < b.drop_first().len() implies #[trigger] lex_order()(
            b.drop_first()[i],
            b.drop_first()[j2],
        ) by {
            assert(lex_order()(b[i + 1], b[j2 + 1]));
        }
        lemma_sorted_unique(a.drop_first(), b.drop_first());
        assert(a =~= seq![x] + a.drop_first());
        assert(b =~= seq![y] + b.drop_first());
    } else {
        assert(a =~= b);
    }
}

/// The tag prefixes of the built-in tools in lexicographic order: the one
/// sorted arrangement of `unsorted_default_prefixes()`.
pub open spec fn sorted_default_prefixes() -> Seq<Seq<char>> {
    choose|s: Seq<Seq<char>>|
        sorted_by(s, lex_order()) && s.to_multiset() == unsorted_default_prefixes().to_multiset()
}

/// A sorted arrangement of the tag prefixes is `sorted_default_prefixes()`.
pub proof fn lemma_sorted_default_prefixes(s: Seq<Seq<char>>)
    requires
        sorted_by(s, lex_order()),
        s.to_multiset() == unsorted_default_prefixes().to_multiset(),
    ensures
        s == sorted_default_prefixes(),
{
    let c = sorted_default_prefixes();
    assert(sorted_by(c, lex_order()) && c.to_multiset() == unsorted_default_prefixes().to_multiset());
    lemma_sorted_unique(s, c);
}

proof fn lemma_lex_skip(a: Seq<char>, b: Seq<char>, i: int)
    requires
        0 <= i <= a.len(),
        i <= b.len(),
        a.take(i) == b.take(i),
    ensures
        lex_le(a, b) == lex_le(a.skip(i), b.skip(i)),
    decreases i,
{
    if i > 0 {
        assert(a[0] == a.take(i)[0]);
        assert(b[0] == b.take(i)[0]);
        assert(a.drop_first().take(i - 1) =~= a.take(i).drop_first());
        assert(b.drop_first().take(i - 1) =~= b.take(i).drop_first());
        lemma_lex_skip(a.drop_first(), b.drop_first(), i - 1);
        assert(a.drop_first().skip(i - 1) =~= a.skip(i));
        assert(b.drop_first().skip(i - 1) =~= b.skip(i));
    } else {
        assert(a.skip(0) =~= a);
        assert(b.skip(0) =~= b);
    }
}

/// Whether `a` comes no later than `b` in lexicographic order.
pub fn lex_le_exec(a: &Vec<char>, b: &Vec<char>) -> (r: bool)
    ensures
        r == lex_le(a@, b@),
{
    let mut i: usize = 0;
    while i < a.len() && i < b.len() && a[i] == b[i]
        invariant
            i <= a@.len(),
            i <= b@.len(),
            a@.take(i as int) == b@.take(i as int),
        decreases a@.len() - i,
    {
        proof {
            assert(a@.take(i as int + 1) =~= a@.take(i as int).push(a@[i as int]));
            assert(b@.take(i as int + 1) =~= b@.take(i as int).push(b@[i as int]));
        }
        i = i + 1;
    }
    proof {
        lemma_lex_skip(a@, b@, i as int);
    }
    if i == a.len() {
        true
    } else if i == b.len() {
        false
    } else {
        proof {
            assert(a@.skip(i as int)[0] == a@[i as int]);
            assert(b@.skip(i as int)[0] == b@[i as int]);
        }
        (a[i] as u32) < (b[i] as u32)
    }
}

/// `v` in lexicographic order.
fn sort_chars(v: Vec<Vec<char>>) -> (r: Vec<Vec<char>>)
    ensures
        sorted_by(r@.map_values(|s: Vec<char>| s@), lex_order()),
        r@.map_values(|s: Vec<char>| s@).to_multiset() == v@.map_values(|s: Vec<char>| s@).to_multiset(),
{
    let ghost input = v@.map_values(|s: Vec<char>| s@);
    let mut r: Vec<Vec<char>> = Vec::new();
    let mut i: usize = 0;
    while i < v.len()
        invariant
            i <= v@.len(),
            input == v@.map_values(|s: Vec<char>| s@),
            sorted_by(r@.map_values(|s: Vec<char>| s@), lex_order()),
            r@.map_values(|s: Vec<char>| s@).to_multiset() == input.take(i as int).to_multiset(),
        decreases v@.len() - i,
    {
        let x = v[i].clone();
        let ghost rv = r@.map_values(|s: Vec<char>| s@);
        let mut p: usize = 0;
        while p < r.len() && lex_le_exec(&r[p], &x)
            invariant
                p <= r@.len(),
                rv == r@.map_values(|s: Vec<char>| s@),
                forall|q: int| 0 <= q < p ==> lex_le(#[trigger] rv[q], x@),
            decreases r@.len() - p,
        {
            p = p + 1;
        }
        r.insert(p, x);
        proof {
            let nv = r@.map_values(|s: Vec<char>| s@);
            assert(nv =~= rv.insert(p as int, x@));
            assert forall|a: int, b: int| 0 <= a < b < nv.len() implies #[trigger] lex_order()(
                nv[a],
                nv[b],
            ) by {
                if b < p {
                    assert(lex_order()(rv[a], rv[b]));
                } else if b == p {
                    assert(lex_le(rv[a], x@));
                } else if a < p {
                    assert(lex_order()(rv[a], rv[b - 1]));
                } else if a == p {
                    lemma_lex_total(rv[p as int], x@);
                    if p as int + 1 < b {
                        assert(lex_order()(rv[p as int], rv[b - 1]));
                        lemma_lex_trans(x@, rv[p as int], rv[b - 1]);
                    }
                } else {
                    assert(lex_order()(rv[a - 1], rv[b - 1]));
                }
            }
            assert(nv.remove(p as int) =~= rv);
            assert(nv[p as int] == x@);
            assert(input.take(i as int + 1) =~= input.take(i as int).push(input[i as int]));
            assert(input[i as int] == x@);
            assert(nv.to_multiset() =~= rv.to_multiset().insert(x@));
        }
        i = i + 1;
    }
    proof {
        assert(input.take(i as int) =~= input);
    }
    r
}

/// The tag prefixes `<`, `<n`, ..., `<name` of the built-in tools, sorted.
pub(crate) fn default_prefix_chars() -> (r: Vec<Vec<char>>)
    ensures
        sorted_by(r@.map_values(|s: Vec<char>| s@), lex_order()),
        r@.map_values(|s: Vec<char>| s@).to_multiset() == unsorted_default_prefixes().to_multiset(),
        r@.map_values(|s: Vec<char>| s@) == sorted_default_prefixes(),
{
    let table = default_tools_table();
    let lt = str_chars("<");
    let ghost groups = default_tool_names_spec().map_values(|n: Seq<char>| tag_prefixes_of(n));
    let mut all: Vec<Vec<char>> = Vec::new();
    let mut i: usize = 0;
    while i < table.len()
        invariant
            i <= table@.len(),
            table@.len() == default_tools().len(),
            lt@ == "<"@,
            groups == default_tool_names_spec().map_values(|n: Seq<char>| tag_prefixes_of(n)),
            forall|k: int|
                0 <= k < table@.len() ==> (#[trigger] table@[k]).0@ == default_tools()[k].0,
            all@.map_values(|s: Vec<char>| s@) == groups.take(i as int).flatten(),
        decreases table@.len() - i,
    {
        let name = str_chars(table[i].0);
        let ghost before = all@.map_values(|s: Vec<char>| s@);
        let ghost g = tag_prefixes_of(name@);
        assert(name@ == default_tool_names_spec()[i as int]);
        assert(groups[i as int] == g);
        let mut cur = lt.clone();
        assert(name@.take(0) =~= Seq::<char>::empty());
        assert(cur@ =~= "<"@ + name@.take(0));
        all.push(cur.clone());
        proof {
            assert(g[0] == "<"@ + name@.take(0));
            assert(all@.map_values(|s: Vec<char>| s@) =~= before + g.take(1));
        }
        let mut e: usize = 0;
        while e < name.len()
            invariant
                e <= name@.len(),
                g == tag_prefixes_of(name@),
                cur@ == "<"@ + name@.take(e as int),
                all@.map_values(|s: Vec<char>| s@) == before + g.take(e as int + 1),
            decreases name@.len() - e,
        {
            cur.push(name[e]);
            proof {
                assert(name@.take(e as int + 1) =~= name@.take(e as int).push(name@[e as int]));
                assert(cur@ =~= "<"@ + name@.take(e as int + 1));
            }
            e = e + 1;
            let ghost old_all = all@;
            all.push(cur.clone());
            proof {
                assert(g[e as int] == "<"@ + name@.take(e as int));
                assert(all@.map_values(|s: Vec<char>| s@) =~= old_all.map_values(|s: Vec<char>| s@).push(cur@));
                assert(g.take(e as int + 1) =~= g.take(e as int).push(g[e as int]));
                assert(all@.map_values(|s: Vec<char>| s@) =~= before + g.take(e as int + 1));
            }
        }
        proof {
            assert(g.take(e as int + 1) =~= g);
            assert(groups.take(i as int + 1) =~= groups.take(i as int).push(groups[i as int]));
            groups.take(i as int).lemma_flatten_push(groups[i as int]);
        }
        i = i + 1;
    }
    proof {
        assert(groups.take(i as int) =~= groups);
    }
    let r = sort_chars(all);
    proof {
        lemma_sorted_default_prefixes(r@.map_values(|s: Vec<char>| s@));
    }
    r
}

/// The tag prefixes `<`, `<n`, ..., `<name` of the built-in tools in
/// lexicographic (byte) order.
pub fn default_tool_prefixes() -> (r: Vec<String>)
    ensures
        sorted_by(r@.map_values(|s: String| s@), lex_order()),
        r@.map_values(|s: String| s@).to_multiset() == unsorted_default_prefixes().to_multiset(),
        r@.map_values(|s: String| s@) == sorted_default_prefixes(),
{
    let v = default_prefix_chars();
    let mut r: Vec<String> = Vec::new();
    let mut i: usize = 0;
    while i < v.len()
        invariant
            i <= v@.len(),
            r@.map_values(|s: String| s@) == v@.map_values(|s: Vec<char>| s@).take(i as int),
        decreases v@.len() - i,
    {
        let ghost old_r = r@;
        let sv = string_from_chars(&v[i]);
        r.push(sv);
        proof {
            assert(r@.map_values(|s: String| s@) =~= old_r.map_values(|s: String| s@).push(sv@));
            let vv = v@.map_values(|s: Vec<char>| s@);
            assert(vv.take(i as int + 1) =~= vv.take(i as int).push(vv[i as int]));
            assert(r@.map_values(|s: String| s@) =~= v@.map_values(|s: Vec<char>| s@).take(
                i as int + 1,
            ));
        }
        i = i + 1;
    }
    proof {
        assert(v@.map_values(|s: Vec<char>| s@).take(i as int) =~= v@.map_values(
            |s: Vec<char>| s@,
        ));
    }
    r
}

/// `x` is `<` followed by characters other than `<`: the shape of every
/// tag prefix.
pub open spec fn tag_prefix_shape(x: Seq<char>) -> bool {
    &&& x.len() > 0
    &&& x[0] == '<'
    &&& forall|j: int| 1 <= j < x.len() ==> x[j] != '<'
}

/// No built-in tool name holds a `<`.
proof fn lemma_default_names_no_lt()
    ensures
        forall|i: int, j: int|
            0 <= i < default_tool_names_spec().len() && 0 <= j < default_tool_names_spec()[i].len()
                ==> #[trigger] default_tool_names_spec()[i][j] != '<',
{
    reveal_strlit("write_to_file");
    reveal_strlit("update_todo_list");
    reveal_strlit("search_files");
    reveal_strlit("search_and_replace");
    reveal_strlit("read_file");
    reveal_strlit("list_files");
    reveal_strlit("insert_content");
    reveal_strlit("execute_command");
    reveal_strlit("attempt_completion");
    reveal_strlit("ask_followup_question");
    reveal_strlit("new_task");
    reveal_strlit("workflow_search");
    let names = default_tool_names_spec();
    assert(names.len() == 12);
    assert forall|i: int, j: int| 0 <= i < names.len() && 0 <= j < names[i].len() implies #[trigger] names[i][j]
        != '<' by {
        assert(names[i] == default_tools()[i].0);
        if i == 0 {
        } else if i == 1 {
        } else if i == 2 {
        } else if i == 3 {
        } else if i == 4 {
        } else if i == 5 {
        } else if i == 6 {
        } else if i == 7 {
        } else if i == 8 {
        } else if i == 9 {
        } else if i == 10 {
        } else {
        }
    }
}

/// The tag prefixes of the first `i` built-in tools have the shape of a tag
/// prefix.
proof fn lemma_groups_shape(i: int)
    requires
        0 <= i <= default_tool_names_spec().len(),
        forall|i2: int, j: int|
            0 <= i2 < default_tool_names_spec().len() && 0 <= j < default_tool_names_spec()[i2].len()
                ==> #[trigger] default_tool_names_spec()[i2][j] != '<',
    ensures
        ({
            let f = default_tool_names_spec().map_values(|n: Seq<char>| tag_prefixes_of(n)).take(
                i,
            ).flatten();
            forall|k: int| 0 <= k < f.len() ==> tag_prefix_shape(#[trigger] f[k])
        }),
    decreases i,
{
    let names = default_tool_names_spec();
    let groups = names.map_values(|n: Seq<char>| tag_prefixes_of(n));
    if i == 0 {
        assert(groups.take(0) =~= Seq::<Seq<Seq<char>>>::empty());
    } else {
        lemma_groups_shape(i - 1);
        let g = groups[i - 1];
        assert(g == tag_prefixes_of(names[i - 1]));
        assert(groups.take(i) =~= groups.take(i - 1).push(g));
        groups.take(i - 1).lemma_flatten_push(g);
        let f = groups.take(i - 1).flatten();
        assert forall|k: int| 0 <= k < (f + g).len() implies tag_prefix_shape(#[trigger] (f + g)[k]) by {
            if k >= f.len() {
                let e = k - f.len();
                let x = g[e];
                reveal_strlit("<");
                assert(0 <= e <= names[i - 1].len());
                assert(x == "<"@ + names[i - 1].take(e));
                assert(x.len() == 1 + e);
                assert forall|j: int| 1 <= j < x.len() implies x[j] != '<' by {
                    assert(x[j] == names[i - 1].take(e)[j - 1]);
                    assert(names[i - 1][j - 1] != '<');
                }
            }
        }
    }
}

/// Every built-in tag prefix is `<` followed by characters other than `<`;
/// the first is `<` itself.
pub proof fn lemma_unsorted_prefixes_shape()
    ensures
        forall|k: int|
            0 <= k < unsorted_default_prefixes().len() ==> tag_prefix_shape(
                #[trigger] unsorted_default_prefixes()[k],
            ),
        unsorted_default_prefixes().len() > 0,
        unsorted_default_prefixes()[0] == "<"@,
{
    lemma_default_names_no_lt();
    let names = default_tool_names_spec();
    let groups = names.map_values(|n: Seq<char>| tag_prefixes_of(n));
    lemma_groups_shape(groups.len() as int);
    let i = groups.len() as int;
    assert(groups.take(i) =~= groups);
    assert(groups.len() == 12);
    assert(groups[0].len() > 0);
    assert(unsorted_default_prefixes() == groups.flatten());
    assert(groups.flatten() == groups.first() + groups.drop_first().flatten());
    assert(groups.first()[0] == "<"@ + names[0].take(0));
    assert(names[0].take(0) =~= Seq::<char>::empty());
    assert("<"@ + Seq::<char>::empty() =~= "<"@);
}

/// Every element of a list holding the built-in tag prefixes has their
/// shape, and `<` is one of them.
pub proof fn lemma_prefixes_shape(prefixes: Seq<Seq<char>>)
    requires
        prefixes.to_multiset() == unsorted_default_prefixes().to_multiset(),
    ensures
        forall|k: int| 0 <= k < prefixes.len() ==> tag_prefix_shape(#[trigger] prefixes[k]),
        prefixes.contains("<"@),
{
    lemma_unsorted_prefixes_shape();
    let u = unsorted_default_prefixes();
    assert forall|k: int| 0 <= k < prefixes.len() implies tag_prefix_shape(#[trigger] prefixes[k]) by {
        let x = prefixes[k];
        assert(prefixes.contains(x));
        vstd::seq_lib::to_multiset_contains(prefixes, x);
        vstd::seq_lib::to_multiset_contains(u, x);
        let j = choose|j: int| 0 <= j < u.len() && u[j] == x;
        assert(tag_prefix_shape(u[j]));
    }
    assert(u.contains("<"@)) by {
        assert(u[0] == "<"@);
    }
    vstd::seq_lib::to_multiset_contains(prefixes, "<"@);
    vstd::seq_lib::to_multiset_contains(u, "<"@);
}

} // verus!
