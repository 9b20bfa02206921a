//! Character-level text utilities: UTF-8 byte accounting, whitespace
//! trimming, suffix tests, and an append-only text buffer that keeps a
//! `String` and its characters side by side.
use vstd::prelude::*;
use vstd::utf8::*;
use vstd::string::StringSliceAdditionalSpecFns;

verus! {

broadcast use vstd::seq::group_seq_axioms;

// ---------------------------------------------------------------------
// UTF-8 byte lengths
// ---------------------------------------------------------------------

/// Number of bytes in the UTF-8 encoding of `c`.
pub open spec fn char_width(c: char) -> nat {
    if (c as u32) < 0x80 {
        1
    } else if (c as u32) < 0x800 {
        2
    } else if (c as u32) < 0x10000 {
        3
    } else {
        4
    }
}

/// Number of bytes in the UTF-8 encoding of `s`.
pub open spec fn utf8_len(s: Seq<char>) -> nat
    decreases s.len(),
{
    if s.len() == 0 {
        0
    } else {
        utf8_len(s.drop_last()) + char_width(s.last())
    }
}

/// Byte offset of the character at index `k` of `s`.
pub open spec fn byte_offset(s: Seq<char>, k: int) -> nat {
    utf8_len(s.take(k))
}

/// The character index whose byte offset in `s` is `b`, if `b` falls on a
/// character boundary.
pub open spec fn char_index_at_byte(s: Seq<char>, b: int) -> Option<int> {
    if exists|k: int| 0 <= k <= s.len() && byte_offset(s, k) == b {
        Some(choose|k: int| 0 <= k <= s.len() && byte_offset(s, k) == b)
    } else {
        None
    }
}

pub proof fn lemma_utf8_len_push(s: Seq<char>, c: char)
    ensures
        utf8_len(s.push(c)) == utf8_len(s) + char_width(c),
{
    assert(s.push(c).drop_last() =~= s);
}

pub proof fn lemma_utf8_len_single(c: char)
    ensures
        utf8_len(seq![c]) == char_width(c),
{
    let s = seq![c];
    assert(s.drop_last() =~= Seq::<char>::empty());
    assert(utf8_len(s.drop_last()) == 0);
}

pub proof fn lemma_utf8_len_concat(a: Seq<char>, b: Seq<char>)
    ensures
        utf8_len(a + b) == utf8_len(a) + utf8_len(b),
    decreases b.len(),
{
    if b.len() == 0 {
        assert(a + b =~= a);
    } else {
        lemma_utf8_len_concat(a, b.drop_last());
        assert((a + b).drop_last() =~= a + b.drop_last());
        assert((a + b).last() == b.last());
    }
}

pub proof fn lemma_utf8_len_ge_len(s: Seq<char>)
    ensures
        utf8_len(s) >= s.len(),
        utf8_len(s) <= 4 * s.len(),
    decreases s.len(),
{
    if s.len() > 0 {
        lemma_utf8_len_ge_len(s.drop_last());
    }
}

/// Byte offsets grow strictly with the character index.
pub proof fn lemma_byte_offset_strict(s: Seq<char>, i: int, j: int)
    requires
        0 <= i < j <= s.len(),
    ensures
        byte_offset(s, i) + (j - i) <= byte_offset(s, j),
        byte_offset(s, j) == byte_offset(s, i) + utf8_len(s.subrange(i, j)),
{
    assert(s.take(j) =~= s.take(i) + s.subrange(i, j));
    lemma_utf8_len_concat(s.take(i), s.subrange(i, j));
    lemma_utf8_len_ge_len(s.subrange(i, j));
}

pub proof fn lemma_byte_offset_mono(s: Seq<char>, i: int, j: int)
    requires
        0 <= i <= j <= s.len(),
    ensures
        byte_offset(s, i) <= byte_offset(s, j),
        byte_offset(s, j) == byte_offset(s, i) + utf8_len(s.subrange(i, j)),
        (i < j ==> byte_offset(s, i) < byte_offset(s, j)),
{
    if i < j {
        lemma_byte_offset_strict(s, i, j);
    } else {
        assert(s.subrange(i, j) =~= Seq::<char>::empty());
    }
}

pub proof fn lemma_byte_offset_full(s: Seq<char>)
    ensures
        byte_offset(s, s.len() as int) == utf8_len(s),
        byte_offset(s, 0) == 0,
{
    assert(s.take(s.len() as int) =~= s);
    assert(s.take(0) =~= Seq::<char>::empty());
}

/// Byte offsets of a prefix are those of the whole sequence.
pub proof fn lemma_byte_offset_prefix(s: Seq<char>, t: Seq<char>, k: int)
    requires
        0 <= k <= s.len(),
        s.len() <= t.len(),
        s == t.take(s.len() as int),
    ensures
        byte_offset(s, k) == byte_offset(t, k),
{
    assert(s.take(k) =~= t.take(k));
}

/// When `b` is the byte offset of character index `k`, `k` is the index
/// found for `b`.
pub proof fn lemma_char_index_at_byte(s: Seq<char>, k: int)
    requires
        0 <= k <= s.len(),
    ensures
        char_index_at_byte(s, byte_offset(s, k) as int) == Some(k),
{
    let b = byte_offset(s, k) as int;
    assert(0 <= k <= s.len() && byte_offset(s, k) == b);
    let k2 = choose|k2: int| 0 <= k2 <= s.len() && byte_offset(s, k2) == b;
    if k2 < k {
        lemma_byte_offset_strict(s, k2, k);
    } else if k < k2 {
        lemma_byte_offset_strict(s, k, k2);
    }
}

proof fn lemma_encode_scalar_len(c: char)
    ensures
        encode_scalar(c as u32).len() == char_width(c),
{
    char_is_scalar(c);
}

proof fn lemma_encode_single(c: char)
    ensures
        encode_utf8(seq![c]) == encode_scalar(c as u32),
{
    let s = seq![c];
    assert(s.drop_first() =~= Seq::<char>::empty());
    assert(encode_utf8(s.drop_first()) == Seq::<u8>::empty());
    assert(encode_utf8(s) == encode_scalar(s[0] as u32) + encode_utf8(s.drop_first()));
    assert(encode_utf8(s) =~= encode_scalar(c as u32));
}

/// UTF-8 encoding distributes over concatenation.
pub proof fn lemma_encode_concat(a: Seq<char>, b: Seq<char>)
    ensures
        encode_utf8(a + b) == encode_utf8(a) + encode_utf8(b),
    decreases a.len(),
{
    if a.len() == 0 {
        assert(a + b =~= b);
        assert(encode_utf8(a) =~= Seq::<u8>::empty());
        assert(encode_utf8(a) + encode_utf8(b) =~= encode_utf8(b));
    } else {
        lemma_encode_concat(a.drop_first(), b);
        assert((a + b).drop_first() =~= a.drop_first() + b);
        assert((a + b)[0] == a[0]);
        assert(encode_utf8(a + b) =~= encode_scalar(a[0] as u32) + (encode_utf8(a.drop_first())
            + encode_utf8(b)));
    }
}

/// The encoding of `s` has `utf8_len(s)` bytes.
pub proof fn lemma_encode_len(s: Seq<char>)
    ensures
        encode_utf8(s).len() == utf8_len(s),
    decreases s.len(),
{
    if s.len() > 0 {
        let a = s.drop_last();
        let c = s.last();
        assert(s =~= a + seq![c]);
        lemma_encode_concat(a, seq![c]);
        lemma_encode_len(a);
        lemma_encode_scalar_len(c);
        lemma_encode_single(c);
    }
}

/// The byte offset of a character index is a character boundary of the
/// encoding.
pub proof fn lemma_encode_boundary(s: Seq<char>, k: int)
    requires
        0 <= k <= s.len(),
    ensures
        is_char_boundary(encode_utf8(s), byte_offset(s, k) as int),
    decreases k,
{
    encode_utf8_valid_utf8(s);
    if k == 0 {
        assert(s.take(0) =~= Seq::<char>::empty());
    } else {
        let bytes = encode_utf8(s);
        let rest = s.drop_first();
        encode_utf8_first_scalar(s);
        lemma_encode_scalar_len(s[0]);
        assert(pop_first_scalar(bytes) =~= encode_utf8(rest));
        lemma_encode_boundary(rest, k - 1);
        assert(s.take(k) =~= seq![s[0]] + rest.take(k - 1));
        lemma_utf8_len_concat(seq![s[0]], rest.take(k - 1));
        lemma_utf8_len_single(s[0]);
        assert(byte_offset(s, k) == char_width(s[0]) + byte_offset(rest, k - 1));
        lemma_encode_len(s);
        lemma_utf8_len_ge_len(s);
        assert(s =~= s.take(k) + s.skip(k));
        lemma_utf8_len_concat(s.take(k), s.skip(k));
        assert(byte_offset(s, k) <= bytes.len());
        assert(length_of_first_scalar(bytes) == char_width(s[0]));
        assert(is_char_boundary(pop_first_scalar(bytes), byte_offset(rest, k - 1) as int));
        assert(valid_utf8(bytes));
        assert(byte_offset(s, k) > 0);
    }
}

/// Encoding a prefix gives a prefix of the encoding.
pub proof fn lemma_encode_take(s: Seq<char>, k: int)
    requires
        0 <= k <= s.len(),
    ensures
        encode_utf8(s).subrange(0, byte_offset(s, k) as int) == encode_utf8(s.take(k)),
        encode_utf8(s).subrange(byte_offset(s, k) as int, encode_utf8(s).len() as int)
            == encode_utf8(s.skip(k)),
{
    assert(s =~= s.take(k) + s.skip(k));
    lemma_encode_concat(s.take(k), s.skip(k));
    lemma_encode_len(s.take(k));
    assert(encode_utf8(s).subrange(0, byte_offset(s, k) as int) =~= encode_utf8(s.take(k)));
    assert(encode_utf8(s).subrange(byte_offset(s, k) as int, encode_utf8(s).len() as int)
        =~= encode_utf8(s.skip(k)));
}

/// Two character sequences with the same encoding are equal.
pub proof fn lemma_encode_injective(a: Seq<char>, b: Seq<char>)
    requires
        encode_utf8(a) == encode_utf8(b),
    ensures
        a == b,
{
    encode_utf8_decode_utf8(a);
    encode_utf8_decode_utf8(b);
}

/// The byte width of `c`.
pub fn char_width_exec(c: char) -> (w: usize)
    ensures
        w == char_width(c),
        1 <= w <= 4,
{
    let u = c as u32;
    if u < 0x80 {
        1
    } else if u < 0x800 {
        2
    } else if u < 0x10000 {
        3
    } else {
        4
    }
}

/// The characters of `s[ka..kb]`, given the byte offsets of `ka` and `kb`.
pub fn substring(s: &str, ba: usize, bb: usize, Ghost(ka): Ghost<int>, Ghost(kb): Ghost<int>) -> (r: &str)
    requires
        0 <= ka <= kb <= s@.len(),
        ba == byte_offset(s@, ka),
        bb == byte_offset(s@, kb),
    ensures
        r@ == s@.subrange(ka, kb),
{
    proof {
        lemma_encode_boundary(s@, kb);
        lemma_encode_take(s@, kb);
    }
    let (head, _tail) = s.split_at(bb);
    proof {
        lemma_encode_injective(head@, s@.take(kb));
        assert(s@.take(kb).take(ka) =~= s@.take(ka));
        lemma_encode_boundary(head@, ka);
        lemma_encode_take(head@, ka);
    }
    let (_pre, mid) = head.split_at(ba);
    proof {
        lemma_encode_injective(mid@, head@.skip(ka));
        assert(head@.skip(ka) =~= s@.subrange(ka, kb));
    }
    mid
}

/// Byte offset of the next character index.
pub proof fn lemma_byte_offset_next(s: Seq<char>, k: int)
    requires
        0 <= k < s.len(),
    ensures
        byte_offset(s, k + 1) == byte_offset(s, k) + char_width(s[k]),
{
    assert(s.take(k + 1) =~= s.take(k).push(s[k]));
    lemma_utf8_len_push(s.take(k), s[k]);
}

// ---------------------------------------------------------------------
// Whitespace and trimming
// ---------------------------------------------------------------------

/// Whether `c` has the Unicode `White_Space` property, which is what
/// `char::is_whitespace` reports: tab, line feed, vertical tab, form feed,
/// carriage return, space, next line, no-break space, ogham space mark, the
/// spaces from en quad to hair space, line and paragraph separators, narrow
/// no-break space, medium mathematical space and ideographic space.
pub open spec fn unicode_white_space(c: char) -> bool {
    let u = c as u32;
    ||| 0x09 <= u <= 0x0D
    ||| u == 0x20
    ||| u == 0x85
    ||| u == 0xA0
    ||| u == 0x1680
    ||| 0x2000 <= u <= 0x200A
    ||| u == 0x2028
    ||| u == 0x2029
    ||| u == 0x202F
    ||| u == 0x205F
    ||| u == 0x3000
}

/// Whether `c` is whitespace (`char::is_whitespace`).
pub(crate) fn is_whitespace(c: char) -> (r: bool)
    ensures
        r == unicode_white_space(c),
{
    let u = c as u32;
    (0x09 <= u && u <= 0x0D) || u == 0x20 || u == 0x85 || u == 0xA0 || u == 0x1680 || (0x2000 <= u
        && u <= 0x200A) || u == 0x2028 || u == 0x2029 || u == 0x202F || u == 0x205F || u == 0x3000
}

/// `s` without its leading whitespace.
pub open spec fn trim_front(s: Seq<char>) -> Seq<char>
    decreases s.len(),
{
    if s.len() > 0 && unicode_white_space(s[0]) {
        trim_front(s.drop_first())
    } else {
        s
    }
}

/// `s` without its trailing whitespace.
pub open spec fn trim_back(s: Seq<char>) -> Seq<char>
    decreases s.len(),
{
    if s.len() > 0 && unicode_white_space(s.last()) {
        trim_back(s.drop_last())
    } else {
        s
    }
}

/// `s` without leading and trailing whitespace (`str::trim`).
pub open spec fn trim(s: Seq<char>) -> Seq<char> {
    trim_back(trim_front(s))
}

/// Neither the first nor the last character of `s` is whitespace.
pub open spec fn is_trimmed(s: Seq<char>) -> bool {
    s.len() > 0 ==> !unicode_white_space(s[0]) && !unicode_white_space(s.last())
}

pub proof fn lemma_trim_front_at(s: Seq<char>, i: int)
    requires
        0 <= i <= s.len(),
        forall|k: int| 0 <= k < i ==> unicode_white_space(#[trigger] s[k]),
        i < s.len() ==> !unicode_white_space(s[i]),
    ensures
        trim_front(s) == s.skip(i),
    decreases i,
{
    if i == 0 {
        assert(s.skip(0) =~= s);
    } else {
        let t = s.drop_first();
        assert forall|k: int| 0 <= k < i - 1 implies unicode_white_space(#[trigger] t[k]) by {
            assert(t[k] == s[k + 1]);
        }
        lemma_trim_front_at(t, i - 1);
        assert(t.skip(i - 1) =~= s.skip(i));
    }
}

pub proof fn lemma_trim_back_at(s: Seq<char>, j: int)
    requires
        0 <= j <= s.len(),
        forall|k: int| j <= k < s.len() ==> unicode_white_space(#[trigger] s[k]),
        j > 0 ==> !unicode_white_space(s[j - 1]),
    ensures
        trim_back(s) == s.take(j),
    decreases s.len() - j,
{
    if j == s.len() {
        assert(s.take(j) =~= s);
    } else {
        let t = s.drop_last();
        lemma_trim_back_at(t, j);
        assert(t.take(j) =~= s.take(j));
    }
}

/// The trimmed text of `s[a..b]` is `s[i..j]` when `i`, `j` skip exactly the
/// surrounding whitespace.
pub proof fn lemma_trim_range(s: Seq<char>, a: int, b: int, i: int, j: int)
    requires
        0 <= a <= i <= j <= b <= s.len(),
        forall|k: int| a <= k < i ==> unicode_white_space(#[trigger] s[k]),
        i < b ==> !unicode_white_space(s[i]),
        forall|k: int| j <= k < b ==> unicode_white_space(#[trigger] s[k]),
        j > i ==> !unicode_white_space(s[j - 1]),
        i == b ==> j == b,
    ensures
        trim(s.subrange(a, b)) == s.subrange(i, j),
{
    let r = s.subrange(a, b);
    lemma_trim_front_at(r, i - a);
    let f = r.skip(i - a);
    assert(f =~= s.subrange(i, b));
    lemma_trim_back_at(f, j - i);
    assert(f.take(j - i) =~= s.subrange(i, j));
}

pub proof fn lemma_trim_is_trimmed(s: Seq<char>)
    ensures
        is_trimmed(trim(s)),
        trim(s).len() <= s.len(),
    decreases s.len(),
{
    lemma_trim_front_shape(s);
    lemma_trim_back_shape(trim_front(s));
}

proof fn lemma_trim_front_shape(s: Seq<char>)
    ensures
        trim_front(s).len() > 0 ==> !unicode_white_space(trim_front(s)[0]),
        trim_front(s).len() <= s.len(),
        exists|i: int| 0 <= i <= s.len() && trim_front(s) == s.skip(i),
    decreases s.len(),
{
    if s.len() > 0 && unicode_white_space(s[0]) {
        lemma_trim_front_shape(s.drop_first());
        let i = choose|i: int|
            0 <= i <= s.drop_first().len() && trim_front(s.drop_first()) == s.drop_first().skip(i);
        assert(s.drop_first().skip(i) =~= s.skip(i + 1));
    } else {
        assert(s.skip(0) =~= s);
    }
}

proof fn lemma_trim_back_shape(s: Seq<char>)
    ensures
        trim_back(s).len() > 0 ==> !unicode_white_space(trim_back(s).last()),
        trim_back(s).len() <= s.len(),
        trim_back(s).len() > 0 ==> trim_back(s)[0] == s[0],
        trim_back(s) == s.take(trim_back(s).len() as int),
    decreases s.len(),
{
    if s.len() > 0 && unicode_white_space(s.last()) {
        lemma_trim_back_shape(s.drop_last());
        assert(s.drop_last().take(trim_back(s).len() as int) =~= s.take(trim_back(s).len() as int));
    } else {
        assert(s.take(s.len() as int) =~= s);
    }
}

/// A subrange has no more bytes than the whole.
pub proof fn lemma_utf8_len_subrange(s: Seq<char>, i: int, j: int)
    requires
        0 <= i <= j <= s.len(),
    ensures
        utf8_len(s.subrange(i, j)) <= utf8_len(s),
{
    assert(s =~= s.take(i) + s.subrange(i, j) + s.skip(j));
    lemma_utf8_len_concat(s.take(i), s.subrange(i, j));
    lemma_utf8_len_concat(s.take(i) + s.subrange(i, j), s.skip(j));
}

/// Trimming removes bytes, never adds any.
pub proof fn lemma_trim_bytes(s: Seq<char>)
    ensures
        utf8_len(trim(s)) <= utf8_len(s),
{
    lemma_trim_front_shape(s);
    let i = choose|i: int| 0 <= i <= s.len() && trim_front(s) == s.skip(i);
    let f = trim_front(s);
    lemma_trim_back_shape(f);
    let j = trim_back(f).len() as int;
    assert(trim(s) =~= s.subrange(i, i + j));
    lemma_utf8_len_subrange(s, i, i + j);
}

/// Trimming text that is already trimmed changes nothing.
pub proof fn lemma_trim_of_trimmed(s: Seq<char>)
    requires
        is_trimmed(s),
    ensures
        trim(s) == s,
{
    if s.len() > 0 {
        lemma_trim_front_at(s, 0);
        assert(s.skip(0) =~= s);
        lemma_trim_back_at(s, s.len() as int);
        assert(s.take(s.len() as int) =~= s);
    }
}

// ---------------------------------------------------------------------
// Suffixes
// ---------------------------------------------------------------------

/// `s` ends with `suffix`.
pub open spec fn ends_with(s: Seq<char>, suffix: Seq<char>) -> bool {
    suffix.len() <= s.len() && s.subrange(s.len() - suffix.len(), s.len() as int) == suffix
}

/// Whether `s` ends with `suffix`.
pub fn vec_ends_with(s: &Vec<char>, suffix: &Vec<char>) -> (r: bool)
    ensures
        r == ends_with(s@, suffix@),
{
    let n = s.len();
    let m = suffix.len();
    if m > n {
        return false;
    }
    let off = n - m;
    let mut i: usize = 0;
    while i < m
        invariant
            m <= n,
            off == n - m,
            n == s@.len(),
            m == suffix@.len(),
            i <= m,
            forall|k: int| 0 <= k < i ==> s@[off + k] == suffix@[k],
        decreases m - i,
    {
        if s[off + i] != suffix[i] {
            assert(s@.subrange(off as int, n as int)[i as int] != suffix@[i as int]);
            return false;
        }
        i = i + 1;
    }
    assert(s@.subrange(off as int, n as int) =~= suffix@);
    true
}

/// The characters of `s`.
pub fn str_chars(s: &str) -> (r: Vec<char>)
    ensures
        r@ == s@,
{
    let mut r: Vec<char> = Vec::new();
    for c in it: s.chars()
        invariant
            r@ == it.seq().take(it.index() as int),
            it.seq() == s@,
    {
        r.push(c);
    }
    r
}

/// The characters of `s`.
pub fn string_chars(s: &String) -> (r: Vec<char>)
    ensures
        r@ == s@,
{
    str_chars(s.as_str())
}

/// Appends `c` to `s` (`String::push`). Its contract claims that the view
/// of `s` gains `c` at its end.
#[verifier::external_body]
pub(crate) fn push_char(s: &mut String, c: char)
    ensures
        final(s)@ == old(s)@.push(c),
{
    s.push(c);
}

/// A `String` holding the characters of `v`.
pub fn string_from_chars(v: &Vec<char>) -> (r: String)
    ensures
        r@ == v@,
{
    let mut r = String::new();
    let mut i: usize = 0;
    while i < v.len()
        invariant
            i <= v@.len(),
            r@ == v@.take(i as int),
        decreases v@.len() - i,
    {
        proof {
            assert(v@.take(i as int + 1) =~= v@.take(i as int).push(v@[i as int]));
        }
        push_char(&mut r, v[i]);
        i = i + 1;
    }
    assert(v@.take(v@.len() as int) =~= v@);
    r
}

/// The byte length of `v`, or some value above `cap` when that is larger.
pub fn utf8_len_capped(v: &Vec<char>, cap: usize) -> (r: usize)
    requires
        cap <= usize::MAX - 4,
    ensures
        r <= cap ==> r == utf8_len(v@),
        r > cap ==> utf8_len(v@) > cap,
{
    let mut i: usize = 0;
    let mut sum: usize = 0;
    while i < v.len()
        invariant
            i <= v@.len(),
            sum == byte_offset(v@, i as int),
            sum <= cap,
            cap <= usize::MAX - 4,
        decreases v@.len() - i,
    {
        proof {
            lemma_byte_offset_next(v@, i as int);
        }
        sum = sum + char_width_exec(v[i]);
        i = i + 1;
        if sum > cap {
            proof {
                lemma_byte_offset_mono(v@, i as int, v@.len() as int);
                lemma_byte_offset_full(v@);
            }
            return sum;
        }
    }
    proof {
        lemma_byte_offset_full(v@);
    }
    sum
}

/// Byte offsets within a subrange are those of the whole, shifted.
pub proof fn lemma_byte_offset_subrange(s: Seq<char>, a: int, b: int, j: int)
    requires
        0 <= a <= b <= s.len(),
        0 <= j <= b - a,
    ensures
        byte_offset(s.subrange(a, b), j) + byte_offset(s, a) == byte_offset(s, a + j),
{
    assert(s.subrange(a, b).take(j) =~= s.subrange(a, a + j));
    lemma_byte_offset_mono(s, a, a + j);
}

/// The characters `a..b` of `v`.
pub fn subrange_chars(v: &Vec<char>, a: usize, b: usize) -> (r: Vec<char>)
    requires
        a <= b <= v@.len(),
    ensures
        r@ == v@.subrange(a as int, b as int),
{
    let mut r: Vec<char> = Vec::new();
    let mut i = a;
    while i < b
        invariant
            a <= i <= b <= v@.len(),
            r@ == v@.subrange(a as int, i as int),
        decreases b - i,
    {
        r.push(v[i]);
        proof {
            assert(v@.subrange(a as int, i as int + 1) =~= v@.subrange(a as int, i as int).push(v@[i as int]));
        }
        i = i + 1;
    }
    r
}

/// `v` without leading and trailing whitespace.
pub fn trim_chars(v: &Vec<char>) -> (r: Vec<char>)
    ensures
        r@ == trim(v@),
{
    let n = v.len();
    let mut i: usize = 0;
    while i < n && is_whitespace(v[i])
        invariant
            i <= n == v@.len(),
            forall|k: int| 0 <= k < i ==> unicode_white_space(#[trigger] v@[k]),
        decreases n - i,
    {
        i = i + 1;
    }
    let mut j = n;
    while j > i && is_whitespace(v[j - 1])
        invariant
            i <= j <= n == v@.len(),
            forall|k: int| j <= k < n ==> unicode_white_space(#[trigger] v@[k]),
        decreases j - i,
    {
        j = j - 1;
    }
    proof {
        lemma_trim_range(v@, 0, n as int, i as int, j as int);
        assert(v@.subrange(0, n as int) =~= v@);
    }
    subrange_chars(v, i, j)
}

/// The character index at byte `b` of `v`, when `b` falls on a character
/// boundary; otherwise the first index past it.
pub fn char_index_for_byte(v: &Vec<char>, b: usize) -> (r: (usize, bool))
    requires
        b <= usize::MAX - 4,
    ensures
        r.1 == char_index_at_byte(v@, b as int) is Some,
        r.1 ==> char_index_at_byte(v@, b as int) == Some(r.0 as int),
        r.0 <= v@.len(),
{
    let mut k: usize = 0;
    let mut kb: usize = 0;
    proof {
        lemma_byte_offset_full(v@);
    }
    while k < v.len() && kb < b
        invariant
            k <= v@.len(),
            kb == byte_offset(v@, k as int),
            b <= usize::MAX - 4,
            forall|j: int| 0 <= j < k ==> byte_offset(v@, j) < b,
        decreases v@.len() - k,
    {
        proof {
            lemma_byte_offset_next(v@, k as int);
        }
        kb = kb + char_width_exec(v[k]);
        k = k + 1;
    }
    if kb == b {
        proof {
            lemma_char_index_at_byte(v@, k as int);
        }
        (k, true)
    } else {
        proof {
            assert forall|j: int| 0 <= j <= v@.len() implies byte_offset(v@, j) != b by {
                if j > k {
                    lemma_byte_offset_mono(v@, k as int, j);
                }
            }
        }
        (k, false)
    }
}

/// `a` followed by `b`.
pub fn concat_chars(a: &Vec<char>, b: &Vec<char>) -> (r: Vec<char>)
    ensures
        r@ == a@ + b@,
{
    let mut r = a.clone();
    let mut i: usize = 0;
    while i < b.len()
        invariant
            i <= b@.len(),
            r@ == a@ + b@.take(i as int),
        decreases b@.len() - i,
    {
        r.push(b[i]);
        proof {
            assert(b@.take(i as int + 1) =~= b@.take(i as int).push(b@[i as int]));
            assert(r@ =~= a@ + b@.take(i as int + 1));
        }
        i = i + 1;
    }
    assert(b@.take(b@.len() as int) =~= b@);
    r
}

/// Whether two character sequences are equal.
pub fn chars_eq(a: &Vec<char>, b: &Vec<char>) -> (r: bool)
    ensures
        r == (a@ == b@),
{
    if a.len() != b.len() {
        return false;
    }
    let mut i: usize = 0;
    while i < a.len()
        invariant
            a@.len() == b@.len(),
            i <= a@.len(),
            forall|k: int| 0 <= k < i ==> a@[k] == b@[k],
        decreases a@.len() - i,
    {
        if a[i] != b[i] {
            return false;
        }
        i = i + 1;
    }
    assert(a@ =~= b@);
    true
}

// ---------------------------------------------------------------------
// Append-only text buffer
// ---------------------------------------------------------------------

/// Text kept both as a `String` (for cheap owned slices) and as its
/// characters (for character-level inspection), with its byte length.
#[derive(Debug)]
pub struct TextBuf {
    text: String,
    chars: Vec<char>,
    bytes: usize,
}

impl View for TextBuf {
    type V = Seq<char>;

    closed spec fn view(&self) -> Seq<char> {
        self.chars@
    }
}

impl TextBuf {
    pub closed spec fn wf(&self) -> bool {
        &&& self.text@ == self.chars@
        &&& self.bytes == utf8_len(self.chars@)
    }

    pub fn new() -> (r: Self)
        ensures
            r.wf(),
            r@ == Seq::<char>::empty(),
    {
        TextBuf { text: String::new(), chars: Vec::new(), bytes: 0 }
    }

    pub fn clone_buf(&self) -> (r: Self)
        ensures
            self.wf() ==> r.wf(),
            r@ == self@,
    {
        TextBuf { text: self.text.clone(), chars: self.chars.clone(), bytes: self.bytes }
    }

    /// Number of characters.
    pub fn len(&self) -> (r: usize)
        requires
            self.wf(),
        ensures
            r == self@.len(),
    {
        self.chars.len()
    }

    /// Number of bytes of the UTF-8 encoding.
    pub fn byte_len(&self) -> (r: usize)
        requires
            self.wf(),
        ensures
            r == utf8_len(self@),
    {
        self.bytes
    }

    pub fn char_at(&self, k: usize) -> (r: char)
        requires
            self.wf(),
            k < self@.len(),
        ensures
            r == self@[k as int],
    {
        self.chars[k]
    }

    pub fn push(&mut self, c: char)
        requires
            old(self).wf(),
            utf8_len(old(self)@) + 4 <= usize::MAX,
        ensures
            final(self).wf(),
            final(self)@ == old(self)@.push(c),
            utf8_len(final(self)@) == utf8_len(old(self)@) + char_width(c),
    {
        let w = char_width_exec(c);
        push_char(&mut self.text, c);
        self.chars.push(c);
        proof {
            lemma_utf8_len_push(old(self).chars@, c);
        }
        self.bytes = self.bytes + w;
    }

    pub fn clear(&mut self)
        ensures
            final(self).wf(),
            final(self)@ == Seq::<char>::empty(),
    {
        self.text = String::new();
        self.chars = Vec::new();
        self.bytes = 0;
    }

    /// Whether the text ends with `suffix`.
    pub fn ends_with(&self, suffix: &Vec<char>) -> (r: bool)
        requires
            self.wf(),
        ensures
            r == ends_with(self@, suffix@),
    {
        vec_ends_with(&self.chars, suffix)
    }

    /// An owned copy of the characters `ka..kb`, given their byte offsets.
    pub fn slice(&self, ka: usize, ba: usize, kb: usize, bb: usize) -> (r: String)
        requires
            self.wf(),
            ka <= kb <= self@.len(),
            ba == byte_offset(self@, ka as int),
            bb == byte_offset(self@, kb as int),
        ensures
            r@ == self@.subrange(ka as int, kb as int),
    {
        let s = substring(self.text.as_str(), ba, bb, Ghost(ka as int), Ghost(kb as int));
        s.to_owned()
    }

    /// The characters `ka..kb` with their surrounding whitespace skipped,
    /// together with the byte offsets of the new bounds.
    pub fn trim_bounds(&self, ka: usize, ba: usize, kb: usize, bb: usize) -> (r: (
        usize,
        usize,
        usize,
        usize,
    ))
        requires
            self.wf(),
            ka <= kb <= self@.len(),
            ba == byte_offset(self@, ka as int),
            bb == byte_offset(self@, kb as int),
        ensures
            ka <= r.0 <= r.2 <= kb,
            r.1 == byte_offset(self@, r.0 as int),
            r.3 == byte_offset(self@, r.2 as int),
            self@.subrange(r.0 as int, r.2 as int) == trim(self@.subrange(ka as int, kb as int)),
    {
        let mut i = ka;
        let mut bi = ba;
        while i < kb && is_whitespace(self.chars[i])
            invariant
                self.wf(),
                ka <= i <= kb <= self@.len(),
                bi == byte_offset(self@, i as int),
                bb == byte_offset(self@, kb as int),
                forall|k: int| ka <= k < i ==> unicode_white_space(#[trigger] self@[k]),
            decreases kb - i,
        {
            proof {
                lemma_byte_offset_next(self@, i as int);
                lemma_byte_offset_mono(self@, i as int + 1, kb as int);
            }
            bi = bi + char_width_exec(self.chars[i]);
            i = i + 1;
        }
        let mut j = kb;
        let mut bj = bb;
        while j > i && is_whitespace(self.chars[j - 1])
            invariant
                self.wf(),
                ka <= i <= j <= kb <= self@.len(),
                bj == byte_offset(self@, j as int),
                forall|k: int| j <= k < kb ==> unicode_white_space(#[trigger] self@[k]),
            decreases j - i,
        {
            proof {
                lemma_byte_offset_next(self@, j as int - 1);
            }
            bj = bj - char_width_exec(self.chars[j - 1]);
            j = j - 1;
        }
        proof {
            lemma_trim_range(self@, ka as int, kb as int, i as int, j as int);
        }
        (i, bi, j, bj)
    }

    /// Owned copy of the characters `ka..kb` with surrounding whitespace removed.
    pub fn trimmed_slice(&self, ka: usize, ba: usize, kb: usize, bb: usize) -> (r: String)
        requires
            self.wf(),
            ka <= kb <= self@.len(),
            ba == byte_offset(self@, ka as int),
            bb == byte_offset(self@, kb as int),
        ensures
            r@ == trim(self@.subrange(ka as int, kb as int)),
    {
        let (i, bi, j, bj) = self.trim_bounds(ka, ba, kb, bb);
        self.slice(i, bi, j, bj)
    }

    /// The byte offset of character index `k`, walking back from `kend`.
    pub fn byte_offset_back(&self, kend: usize, bend: usize, k: usize) -> (r: usize)
        requires
            self.wf(),
            k <= kend <= self@.len(),
            bend == byte_offset(self@, kend as int),
        ensures
            r == byte_offset(self@, k as int),
    {
        let mut j = kend;
        let mut bj = bend;
        while j > k
            invariant
                self.wf(),
                k <= j <= kend <= self@.len(),
                bj == byte_offset(self@, j as int),
            decreases j - k,
        {
            proof {
                lemma_byte_offset_next(self@, j as int - 1);
            }
            bj = bj - char_width_exec(self.chars[j - 1]);
            j = j - 1;
        }
        bj
    }

    /// The byte offset of character index `k`, walking forward from `k0`.
    pub fn byte_offset_fwd(&self, k0: usize, b0: usize, k: usize) -> (r: usize)
        requires
            self.wf(),
            k0 <= k <= self@.len(),
            b0 == byte_offset(self@, k0 as int),
        ensures
            r == byte_offset(self@, k as int),
    {
        let mut j = k0;
        let mut bj = b0;
        while j < k
            invariant
                self.wf(),
                k0 <= j <= k <= self@.len(),
                bj == byte_offset(self@, j as int),
            decreases k - j,
        {
            proof {
                lemma_byte_offset_next(self@, j as int);
                lemma_byte_offset_mono(self@, j as int + 1, self@.len() as int);
                lemma_byte_offset_full(self@);
            }
            bj = bj + char_width_exec(self.chars[j]);
            j = j + 1;
        }
        bj
    }

    /// Whether `needle` occurs at character index `k`.
    pub fn matches_at(&self, k: usize, needle: &Vec<char>) -> (r: bool)
        requires
            self.wf(),
        ensures
            r == (k + needle@.len() <= self@.len() && self@.subrange(k as int, k + needle@.len())
                == needle@),
    {
        let n = self.chars.len();
        let m = needle.len();
        if k > n || m > n - k {
            return false;
        }
        let mut i: usize = 0;
        while i < m
            invariant
                self.wf(),
                n == self@.len(),
                m == needle@.len(),
                k + m <= n,
                i <= m,
                forall|j: int| 0 <= j < i ==> self@[k + j] == needle@[j],
            decreases m - i,
        {
            if self.chars[k + i] != needle[i] {
                assert(self@.subrange(k as int, k + m)[i as int] != needle@[i as int]);
                return false;
            }
            i = i + 1;
        }
        assert(self@.subrange(k as int, k + m) =~= needle@);
        true
    }
}

} // verus!
