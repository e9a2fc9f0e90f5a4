use vstd::prelude::*;

verus! {

// ---------------------------------------------------------------------------
// Specifications of the text operations used throughout the crate.
// ---------------------------------------------------------------------------
/// Unicode `White_Space` (the property behind `char::is_whitespace` and `str::trim`).
pub open spec fn is_white_space(c: char) -> bool {
    let n = c as int;
    ||| 0x9 <= n <= 0xD
    ||| n == 0x20
    ||| n == 0x85
    ||| n == 0xA0
    ||| n == 0x1680
    ||| 0x2000 <= n <= 0x200A
    ||| n == 0x2028
    ||| n == 0x2029
    ||| n == 0x202F
    ||| n == 0x205F
    ||| n == 0x3000
}

/// Number of white-space characters at the start of `s`.
pub open spec fn leading_ws(s: Seq<char>) -> nat
    decreases s.len(),
{
    if s.len() > 0 && is_white_space(s[0]) {
        1 + leading_ws(s.drop_first())
    } else {
        0
    }
}

/// Number of white-space characters at the end of `s`.
pub open spec fn trailing_ws(s: Seq<char>) -> nat
    decreases s.len(),
{
    if s.len() > 0 && is_white_space(s.last()) {
        1 + trailing_ws(s.drop_last())
    } else {
        0
    }
}

/// `s` without leading white space (`str::trim_start`).
pub open spec fn trimmed_start(s: Seq<char>) -> Seq<char> {
    s.skip(leading_ws(s) as int)
}

/// `s` without trailing white space (`str::trim_end`).
pub open spec fn trimmed_end(s: Seq<char>) -> Seq<char> {
    s.take(s.len() - trailing_ws(s))
}

/// `s` without leading and trailing white space (`str::trim`).
pub open spec fn trimmed(s: Seq<char>) -> Seq<char> {
    trimmed_end(trimmed_start(s))
}

/// `str::starts_with` with a string pattern.
pub open spec fn has_prefix(s: Seq<char>, p: Seq<char>) -> bool {
    p.is_prefix_of(s)
}

/// `str::strip_prefix` with a string pattern.
pub open spec fn without_prefix(s: Seq<char>, p: Seq<char>) -> Option<Seq<char>> {
    if p.is_prefix_of(s) {
        Some(s.skip(p.len() as int))
    } else {
        None
    }
}

/// Index of the first `c` in `s` at or after `i`, if any.
pub open spec fn first_index_from(s: Seq<char>, c: char, i: int) -> Option<int>
    decreases s.len() - i,
{
    if i < 0 || i >= s.len() {
        None
    } else if s[i] == c {
        Some(i)
    } else {
        first_index_from(s, c, i + 1)
    }
}

/// Index of the first `c` in `s`, if any (`str::find` with a char pattern).
pub open spec fn first_index_of(s: Seq<char>, c: char) -> Option<int> {
    first_index_from(s, c, 0)
}

/// `str::split_once` with a char pattern: the text before and after the first `c`.
pub open spec fn split_at_first(s: Seq<char>, c: char) -> Option<(Seq<char>, Seq<char>)> {
    match first_index_of(s, c) {
        Some(i) => Some((s.take(i), s.skip(i + 1))),
        None => None,
    }
}

/// `str::split` with a char separator: the pieces between separators, in order.
/// There is always at least one piece.
pub open spec fn split_pieces(s: Seq<char>, sep: char) -> Seq<Seq<char>>
    decreases s.len(),
{
    if s.len() == 0 {
        seq![Seq::<char>::empty()]
    } else {
        let rest = split_pieces(s.drop_last(), sep);
        if s.last() == sep {
            rest.push(Seq::<char>::empty())
        } else {
            rest.update(rest.len() - 1, rest.last().push(s.last()))
        }
    }
}

/// `[..].join(sep)`: the pieces with `sep` between consecutive pieces.
pub open spec fn joined(ls: Seq<Seq<char>>, sep: Seq<char>) -> Seq<char>
    decreases ls.len(),
{
    if ls.len() == 0 {
        Seq::<char>::empty()
    } else if ls.len() == 1 {
        ls[0]
    } else {
        joined(ls.drop_last(), sep) + sep + ls.last()
    }
}

/// `s` with every leading occurrence of the non-empty pattern `p` removed,
/// repeatedly (`str::trim_start_matches` with a string pattern).
pub open spec fn without_all_prefixes(s: Seq<char>, p: Seq<char>) -> Seq<char>
    decreases s.len(),
{
    if p.len() > 0 && p.is_prefix_of(s) {
        without_all_prefixes(s.skip(p.len() as int), p)
    } else {
        s
    }
}

/// Number of leading copies of `c` in `s`.
pub open spec fn leading_count(s: Seq<char>, c: char) -> nat
    decreases s.len(),
{
    if s.len() > 0 && s[0] == c {
        1 + leading_count(s.drop_first(), c)
    } else {
        0
    }
}

/// Number of trailing copies of `c` in `s`.
pub open spec fn trailing_count(s: Seq<char>, c: char) -> nat
    decreases s.len(),
{
    if s.len() > 0 && s.last() == c {
        1 + trailing_count(s.drop_last(), c)
    } else {
        0
    }
}

/// `s` with every leading and trailing `c` removed (`str::trim_matches` with a char).
pub open spec fn trimmed_of(s: Seq<char>, c: char) -> Seq<char> {
    let t = s.skip(leading_count(s, c) as int);
    t.take(t.len() - trailing_count(t, c))
}

/// `str::replace` with a non-empty string pattern: every non-overlapping occurrence
/// of `n`, scanning from the left, is replaced by `r`.
pub open spec fn replaced(s: Seq<char>, n: Seq<char>, r: Seq<char>) -> Seq<char>
    decreases s.len(),
{
    if n.len() > 0 && n.is_prefix_of(s) {
        r + replaced(s.skip(n.len() as int), n, r)
    } else if s.len() == 0 {
        Seq::<char>::empty()
    } else {
        seq![s[0]] + replaced(s.drop_first(), n, r)
    }
}

/// The character sequences held by a vector of character vectors.
pub open spec fn views_of(v: Seq<Vec<char>>) -> Seq<Seq<char>> {
    v.map_values(|x: Vec<char>| x@)
}

// ---------------------------------------------------------------------------
// Lemmas
// ---------------------------------------------------------------------------
/// If the first `k` characters are white space and the next is not, `leading_ws` is `k`.
proof fn lemma_leading_ws_is(s: Seq<char>, k: int)
    requires
        0 <= k <= s.len(),
        forall|j: int| 0 <= j < k ==> is_white_space(#[trigger] s[j]),
        k < s.len() ==> !is_white_space(s[k]),
    ensures
        leading_ws(s) == k,
    decreases k,
{
    if k > 0 {
        assert forall|j: int| 0 <= j < k - 1 implies is_white_space(#[trigger] s.drop_first()[j]) by {
            assert(s.drop_first()[j] == s[j + 1]);
        }
        lemma_leading_ws_is(s.drop_first(), k - 1);
    }
}

/// If the last `k` characters are white space and the one before is not, `trailing_ws` is `k`.
proof fn lemma_trailing_ws_is(s: Seq<char>, k: int)
    requires
        0 <= k <= s.len(),
        forall|j: int| s.len() - k <= j < s.len() ==> is_white_space(#[trigger] s[j]),
        k < s.len() ==> !is_white_space(s[s.len() - k - 1]),
    ensures
        trailing_ws(s) == k,
    decreases k,
{
    if k > 0 {
        assert forall|j: int|
            s.drop_last().len() - (k - 1) <= j < s.drop_last().len() implies is_white_space(
            #[trigger] s.drop_last()[j],
        ) by {
            assert(s.drop_last()[j] == s[j]);
        }
        lemma_trailing_ws_is(s.drop_last(), k - 1);
    }
}

/// Replacing a character by a different one leaves none of it.
pub proof fn lemma_replaced_char_gone(s: Seq<char>, a: char, b: char)
    requires
        a != b,
    ensures
        !replaced(s, seq![a], seq![b]).contains(a),
    decreases s.len(),
{
    if s.len() > 0 {
        if seq![a].is_prefix_of(s) {
            assert(s.skip(1).len() < s.len());
            lemma_replaced_char_gone(s.skip(1), a, b);
            let r = replaced(s.skip(1), seq![a], seq![b]);
            assert(replaced(s, seq![a], seq![b]) == seq![b] + r);
            if (seq![b] + r).contains(a) {
                let k = choose|k: int| 0 <= k < (seq![b] + r).len() && (seq![b] + r)[k] == a;
                assert(r[k - 1] == a);
            }
        } else {
            lemma_replaced_char_gone(s.drop_first(), a, b);
            let r = replaced(s.drop_first(), seq![a], seq![b]);
            assert(s[0] != a) by {
                if s[0] == a {
                    assert(seq![a] =~= s.subrange(0, 1));
                }
            }
            if (seq![s[0]] + r).contains(a) {
                let k = choose|k: int| 0 <= k < (seq![s[0]] + r).len() && (seq![s[0]] + r)[k] == a;
                assert(r[k - 1] == a);
            }
        }
    }
}

/// Replacing a character that does not occur changes nothing.
pub proof fn lemma_replaced_char_absent(s: Seq<char>, a: char, b: char)
    requires
        !s.contains(a),
    ensures
        replaced(s, seq![a], seq![b]) == s,
    decreases s.len(),
{
    if s.len() > 0 {
        assert(!seq![a].is_prefix_of(s)) by {
            if seq![a].is_prefix_of(s) {
                assert(s[0] == seq![a][0]);
            }
        }
        assert(!s.drop_first().contains(a)) by {
            if s.drop_first().contains(a) {
                let k = choose|k: int| 0 <= k < s.drop_first().len() && s.drop_first()[k] == a;
                assert(s[k + 1] == a);
            }
        }
        lemma_replaced_char_absent(s.drop_first(), a, b);
        assert(s == seq![s[0]] + s.drop_first());
    }
}

/// Where the first `c` at or after `i` lies.
pub proof fn lemma_first_index_from(s: Seq<char>, c: char, i: int)
    requires
        0 <= i,
    ensures
        first_index_from(s, c, i) matches Some(k) ==> i <= k < s.len() && s[k] == c && forall|
            m: int,
        | i <= m < k ==> s[m] != c,
        first_index_from(s, c, i) is None ==> forall|m: int| i <= m < s.len() ==> s[m] != c,
    decreases s.len() - i,
{
    if i < s.len() && s[i] != c {
        lemma_first_index_from(s, c, i + 1);
    }
}

proof fn lemma_leading_count_is(s: Seq<char>, c: char, k: int)
    requires
        0 <= k <= s.len(),
        forall|j: int| 0 <= j < k ==> #[trigger] s[j] == c,
        k < s.len() ==> s[k] != c,
    ensures
        leading_count(s, c) == k,
    decreases k,
{
    if k > 0 {
        assert forall|j: int| 0 <= j < k - 1 implies #[trigger] s.drop_first()[j] == c by {
            assert(s.drop_first()[j] == s[j + 1]);
        }
        lemma_leading_count_is(s.drop_first(), c, k - 1);
    }
}

proof fn lemma_trailing_count_is(s: Seq<char>, c: char, k: int)
    requires
        0 <= k <= s.len(),
        forall|j: int| s.len() - k <= j < s.len() ==> #[trigger] s[j] == c,
        k < s.len() ==> s[s.len() - k - 1] != c,
    ensures
        trailing_count(s, c) == k,
    decreases k,
{
    if k > 0 {
        assert forall|j: int|
            s.drop_last().len() - (k - 1) <= j < s.drop_last().len() implies #[trigger] s.drop_last()[j]
            == c by {
            assert(s.drop_last()[j] == s[j]);
        }
        lemma_trailing_count_is(s.drop_last(), c, k - 1);
    }
}

/// A split always has at least one piece.
pub proof fn lemma_split_on_len(s: Seq<char>, sep: char)
    ensures
        split_pieces(s, sep).len() >= 1,
    decreases s.len(),
{
    if s.len() > 0 {
        lemma_split_on_len(s.drop_last(), sep);
    }
}

/// A character that does not occur in the text occurs in none of its pieces.
pub proof fn lemma_split_pieces_lack(s: Seq<char>, sep: char, c: char)
    requires
        !s.contains(c),
    ensures
        forall|k: int| 0 <= k < split_pieces(s, sep).len() ==> !(#[trigger] split_pieces(s, sep)[k]).contains(c),
    decreases s.len(),
{
    if s.len() > 0 {
        assert(!s.drop_last().contains(c)) by {
            if s.drop_last().contains(c) {
                let j = choose|j: int| 0 <= j < s.drop_last().len() && s.drop_last()[j] == c;
                assert(s[j] == c);
            }
        }
        lemma_split_pieces_lack(s.drop_last(), sep, c);
        lemma_split_on_len(s.drop_last(), sep);
        let rest = split_pieces(s.drop_last(), sep);
        if s.last() != sep {
            let grown = rest.last().push(s.last());
            assert(!grown.contains(c)) by {
                if grown.contains(c) {
                    let j = choose|j: int| 0 <= j < grown.len() && grown[j] == c;
                    if j < rest.last().len() {
                        assert(rest.last()[j] == c);
                        assert(rest[rest.len() - 1].contains(c));
                    } else {
                        assert(s[s.len() - 1] == c);
                    }
                }
            }
        } else {
            assert(!Seq::<char>::empty().contains(c));
        }
    }
}

/// A text without the separator is a single piece.
pub proof fn lemma_split_without_sep(s: Seq<char>, sep: char)
    requires
        !s.contains(sep),
    ensures
        split_pieces(s, sep) == seq![s],
    decreases s.len(),
{
    if s.len() > 0 {
        assert(!s.drop_last().contains(sep)) by {
            if s.drop_last().contains(sep) {
                let j = choose|j: int| 0 <= j < s.drop_last().len() && s.drop_last()[j] == sep;
                assert(s[j] == sep);
            }
        }
        lemma_split_without_sep(s.drop_last(), sep);
        if s.last() == sep {
            assert(s[s.len() - 1] == sep);
        }
        let rest = seq![s.drop_last()];
        assert(s.drop_last().push(s.last()) == s);
        assert(rest.update(0, rest.last().push(s.last())) == seq![s]);
    } else {
        assert(s == Seq::<char>::empty());
    }
}

/// Splitting `a`, a separator and a text `b` without one: the pieces of `a`, then `b`.
pub proof fn lemma_split_append(a: Seq<char>, sep: char, b: Seq<char>)
    requires
        !b.contains(sep),
    ensures
        split_pieces(a + seq![sep] + b, sep) == split_pieces(a, sep).push(b),
    decreases b.len(),
{
    let s = a + seq![sep] + b;
    if b.len() == 0 {
        assert(s.drop_last() == a);
        assert(s.last() == sep);
        assert(b == Seq::<char>::empty());
    } else {
        assert(s.drop_last() == a + seq![sep] + b.drop_last());
        assert(!b.drop_last().contains(sep)) by {
            if b.drop_last().contains(sep) {
                let j = choose|j: int| 0 <= j < b.drop_last().len() && b.drop_last()[j] == sep;
                assert(b[j] == sep);
            }
        }
        assert(s.last() == b[b.len() - 1]);
        if b[b.len() - 1] == sep {
            assert(b.contains(sep));
        }
        lemma_split_append(a, sep, b.drop_last());
        let rest = split_pieces(a, sep).push(b.drop_last());
        assert(b.drop_last().push(s.last()) == b);
        assert(rest.update(rest.len() - 1, rest.last().push(s.last())) == split_pieces(a, sep).push(b));
    }
}

proof fn lemma_trailing_ws_short(s: Seq<char>)
    requires
        s.len() > 0,
        !is_white_space(s[0]),
    ensures
        trailing_ws(s) < s.len(),
    decreases s.len(),
{
    if s.len() > 1 {
        assert(s.drop_last()[0] == s[0]);
        lemma_trailing_ws_short(s.drop_last());
    }
}

/// A text that starts with a character other than white space does not trim to nothing.
pub proof fn lemma_trimmed_nonempty(s: Seq<char>)
    requires
        s.len() > 0,
        !is_white_space(s[0]),
    ensures
        trimmed(s).len() > 0,
{
    assert(leading_ws(s) == 0);
    assert(s.skip(0) == s);
    lemma_trailing_ws_short(s);
}

/// Splitting and joining with the same separator gives the text back.
pub proof fn lemma_join_split(s: Seq<char>, sep: char)
    ensures
        joined(split_pieces(s, sep), seq![sep]) == s,
    decreases s.len(),
{
    if s.len() > 0 {
        let rest = split_pieces(s.drop_last(), sep);
        lemma_split_on_len(s.drop_last(), sep);
        lemma_join_split(s.drop_last(), sep);
        if s.last() == sep {
            let r2 = rest.push(Seq::<char>::empty());
            assert(r2.drop_last() == rest);
            assert(s == s.drop_last() + seq![sep] + Seq::<char>::empty());
        } else {
            let r2 = rest.update(rest.len() - 1, rest.last().push(s.last()));
            if rest.len() == 1 {
                assert(s == rest[0].push(s.last()));
            } else {
                assert(r2.drop_last() == rest.drop_last());
                assert(joined(rest, seq![sep]) == joined(rest.drop_last(), seq![sep])
                    + seq![sep] + rest.last());
                assert(s == s.drop_last().push(s.last()));
            }
        }
    }
}

// ---------------------------------------------------------------------------
// Executable text operations
// ---------------------------------------------------------------------------
/// Calls `String::push`, which std documents as appending the character to
/// the end of the string. Trusted: the contract claims the new contents are
/// the old contents followed by `c`.
#[verifier::external_body]
fn push_char(s: &mut String, c: char)
    ensures
        final(s)@ == old(s)@.push(c),
{
    s.push(c);
}

/// Whether `c` is Unicode white space (`char::is_whitespace`).
pub fn is_whitespace_char(c: char) -> (b: bool)
    ensures
        b == is_white_space(c),
{
    let n = c as u32;
    (0x9 <= n && n <= 0xD) || n == 0x20 || n == 0x85 || n == 0xA0 || n == 0x1680 || (0x2000
        <= n && n <= 0x200A) || n == 0x2028 || n == 0x2029 || n == 0x202F || n == 0x205F || n
        == 0x3000
}

/// The characters of `s`, in order.
pub fn to_chars(s: &str) -> (v: Vec<char>)
    ensures
        v@ == s@,
{
    let mut v: Vec<char> = Vec::new();
    for c in it: s.chars()
        invariant
            v@ == it.seq().take(it.index() as int),
    {
        v.push(c);
    }
    v
}

/// The string made of the characters of `v`, in order.
pub fn from_chars(v: &[char]) -> (s: String)
    ensures
        s@ == v@,
{
    let mut s = String::new();
    let mut i: usize = 0;
    while i < v.len()
        invariant
            i <= v.len(),
            s@ == v@.take(i as int),
        decreases v.len() - i,
    {
        push_char(&mut s, v[i]);
        i += 1;
        assert(v@.take(i as int) == v@.take((i - 1) as int).push(v@[i - 1]));
    }
    assert(v@.take(v.len() as int) == v@);
    s
}

/// A copy of `v[a..b]`.
pub fn copy_range(v: &[char], a: usize, b: usize) -> (r: Vec<char>)
    requires
        a <= b <= v.len(),
    ensures
        r@ == v@.subrange(a as int, b as int),
{
    let mut r: Vec<char> = Vec::new();
    let mut i = a;
    while i < b
        invariant
            a <= i <= b <= v.len(),
            r@ == v@.subrange(a as int, i as int),
        decreases b - i,
    {
        r.push(v[i]);
        i += 1;
        assert(v@.subrange(a as int, i as int) == v@.subrange(a as int, (i - 1) as int).push(
            v@[i - 1],
        ));
    }
    r
}

/// Appends the characters of `src` to `dst`.
pub fn push_all(dst: &mut Vec<char>, src: &[char])
    ensures
        final(dst)@ == old(dst)@ + src@,
{
    let mut i: usize = 0;
    while i < src.len()
        invariant
            i <= src.len(),
            dst@ == old(dst)@ + src@.take(i as int),
        decreases src.len() - i,
    {
        dst.push(src[i]);
        i += 1;
        assert(src@.take(i as int) == src@.take((i - 1) as int).push(src@[i - 1]));
    }
    assert(src@.take(src.len() as int) == src@);
}

/// Whether `a` and `b` hold the same characters.
pub fn chars_eq(a: &[char], b: &[char]) -> (r: bool)
    ensures
        r == (a@ == b@),
{
    if a.len() != b.len() {
        return false;
    }
    let mut i: usize = 0;
    while i < a.len()
        invariant
            i <= a.len() == b.len(),
            forall|j: int| 0 <= j < i ==> a@[j] == b@[j],
        decreases a.len() - i,
    {
        if a[i] != b[i] {
            return false;
        }
        i += 1;
    }
    assert(a@ == b@);
    true
}

/// `s.trim()`.
pub fn trim(s: &[char]) -> (r: Vec<char>)
    ensures
        r@ == trimmed(s@),
{
    let mut a: usize = 0;
    while a < s.len() && is_whitespace_char(s[a])
        invariant
            a <= s.len(),
            forall|j: int| 0 <= j < a ==> is_white_space(#[trigger] s@[j]),
        decreases s.len() - a,
    {
        a += 1;
    }
    proof {
        lemma_leading_ws_is(s@, a as int);
    }
    let ghost t = s@.skip(a as int);
    let mut b: usize = s.len();
    while b > a && is_whitespace_char(s[b - 1])
        invariant
            a <= b <= s.len(),
            forall|j: int| b <= j < s.len() ==> is_white_space(#[trigger] s@[j]),
        decreases b,
    {
        b -= 1;
    }
    proof {
        assert forall|j: int| t.len() - (s.len() - b) <= j < t.len() implies is_white_space(
            #[trigger] t[j],
        ) by {
            assert(t[j] == s@[j + a]);
        }
        if s.len() - b < t.len() {
            assert(t[t.len() - (s.len() - b) - 1] == s@[b - 1]);
        }
        lemma_trailing_ws_is(t, s.len() - b);
        assert(trimmed(s@) == s@.subrange(a as int, b as int));
    }
    copy_range(s, a, b)
}

/// `s.starts_with(p)`.
pub fn starts_with(s: &[char], p: &[char]) -> (r: bool)
    ensures
        r == has_prefix(s@, p@),
{
    if p.len() > s.len() {
        return false;
    }
    let mut i: usize = 0;
    while i < p.len()
        invariant
            i <= p.len() <= s.len(),
            forall|j: int| 0 <= j < i ==> s@[j] == p@[j],
        decreases p.len() - i,
    {
        if s[i] != p[i] {
            assert(!(p@ =~= s@.subrange(0, p@.len() as int)) && s@.subrange(0, p@.len() as int)[i as int] != p@[i as int]);
            return false;
        }
        i += 1;
    }
    assert(p@ =~= s@.subrange(0, p@.len() as int));
    true
}

/// `s.strip_prefix(p)`.
pub fn strip_prefix(s: &[char], p: &[char]) -> (r: Option<Vec<char>>)
    ensures
        r matches Some(v) ==> without_prefix(s@, p@) == Some(v@),
        r is None ==> without_prefix(s@, p@) is None,
{
    if starts_with(s, p) {
        Some(copy_range(s, p.len(), s.len()))
    } else {
        None
    }
}

/// Index of the first `c` in `s`.
pub fn find_char(s: &[char], c: char) -> (r: Option<usize>)
    ensures
        r matches Some(i) ==> first_index_of(s@, c) == Some(i as int) && i < s.len() && s@[i as int] == c,
        r is None ==> first_index_of(s@, c) is None,
{
    let mut i: usize = 0;
    while i < s.len()
        invariant
            i <= s.len(),
            first_index_of(s@, c) == first_index_from(s@, c, i as int),
        decreases s.len() - i,
    {
        if s[i] == c {
            return Some(i);
        }
        i += 1;
    }
    None
}

/// Whether `c` occurs in `s`.
pub fn contains_char(s: &[char], c: char) -> (r: bool)
    ensures
        r == (first_index_of(s@, c) is Some),
{
    find_char(s, c).is_some()
}

/// `s.split_once(c)`.
pub fn split_once(s: &[char], c: char) -> (r: Option<(Vec<char>, Vec<char>)>)
    ensures
        r matches Some((a, b)) ==> split_at_first(s@, c) == Some((a@, b@)),
        r is None ==> split_at_first(s@, c) is None,
{
    match find_char(s, c) {
        Some(i) => Some((copy_range(s, 0, i), copy_range(s, i + 1, s.len()))),
        None => None,
    }
}

/// `s.split(sep)` collected into pieces.
pub fn split_on(s: &[char], sep: char) -> (r: Vec<Vec<char>>)
    ensures
        views_of(r@) == split_pieces(s@, sep),
{
    let mut out: Vec<Vec<char>> = Vec::new();
    let mut cur: Vec<char> = Vec::new();
    let mut i: usize = 0;
    assert(s@.take(0) == Seq::<char>::empty());
    while i < s.len()
        invariant
            i <= s.len(),
            views_of(out@).push(cur@) == split_pieces(s@.take(i as int), sep),
        decreases s.len() - i,
    {
        let ghost before = views_of(out@).push(cur@);
        assert(s@.take(i + 1).drop_last() == s@.take(i as int));
        assert(s@.take(i + 1).last() == s@[i as int]);
        if s[i] == sep {
            let done = cur;
            out.push(done);
            cur = Vec::new();
            assert(views_of(out@).push(cur@) == before.push(Seq::<char>::empty()));
        } else {
            cur.push(s[i]);
            assert(views_of(out@).push(cur@) == before.update(
                before.len() - 1,
                before.last().push(s@[i as int]),
            ));
        }
        i += 1;
    }
    assert(s@.take(s.len() as int) == s@);
    out.push(cur);
    out
}

/// `pieces.join(sep)`.
pub fn join_with(pieces: &Vec<Vec<char>>, sep: &[char]) -> (r: Vec<char>)
    ensures
        r@ == joined(views_of(pieces@), sep@),
{
    let ghost ls = views_of(pieces@);
    let mut r: Vec<char> = Vec::new();
    let mut i: usize = 0;
    while i < pieces.len()
        invariant
            i <= pieces.len(),
            ls == views_of(pieces@),
            r@ == joined(ls.take(i as int), sep@),
        decreases pieces.len() - i,
    {
        assert(ls.take(i + 1).drop_last() == ls.take(i as int));
        assert(ls.take(i + 1).last() == pieces@[i as int]@);
        if i > 0 {
            push_all(&mut r, sep);
        } else {
            assert(ls.take(1)[0] == pieces@[0]@);
        }
        push_all(&mut r, pieces[i].as_slice());
        i += 1;
    }
    assert(ls.take(pieces.len() as int) == ls);
    r
}

/// Whether `p` occurs in `s` starting at index `i`.
pub fn starts_with_at(s: &[char], i: usize, p: &[char]) -> (r: bool)
    requires
        i <= s.len(),
    ensures
        r == p@.is_prefix_of(s@.skip(i as int)),
{
    if p.len() > s.len() - i {
        return false;
    }
    let mut j: usize = 0;
    while j < p.len()
        invariant
            i <= s.len(),
            j <= p.len() <= s.len() - i,
            forall|k: int| 0 <= k < j ==> s@[i + k] == p@[k],
        decreases p.len() - j,
    {
        if s[i + j] != p[j] {
            assert(s@.skip(i as int).subrange(0, p@.len() as int)[j as int] != p@[j as int]);
            return false;
        }
        j += 1;
    }
    assert(p@ =~= s@.skip(i as int).subrange(0, p@.len() as int));
    true
}

/// `s.replace(n, r)` for a non-empty pattern `n`.
pub fn replace_all(s: &[char], n: &[char], r: &[char]) -> (out: Vec<char>)
    requires
        n.len() > 0,
    ensures
        out@ == replaced(s@, n@, r@),
{
    let mut out: Vec<char> = Vec::new();
    let mut i: usize = 0;
    assert(s@.skip(0) == s@);
    assert(out@ + replaced(s@, n@, r@) == replaced(s@, n@, r@));
    while i < s.len()
        invariant
            i <= s.len(),
            n.len() > 0,
            out@ + replaced(s@.skip(i as int), n@, r@) == replaced(s@, n@, r@),
        decreases s.len() - i,
    {
        let ghost rest = s@.skip(i as int);
        let ghost before = out@;
        if starts_with_at(s, i, n) {
            push_all(&mut out, r);
            assert(rest.skip(n@.len() as int) == s@.skip(i + n@.len()));
            assert(out@ + replaced(s@.skip(i + n@.len()), n@, r@) == before + replaced(rest, n@, r@));
            i += n.len();
        } else {
            out.push(s[i]);
            assert(rest.drop_first() == s@.skip(i + 1));
            assert(rest[0] == s@[i as int]);
            assert(out@ + replaced(s@.skip(i + 1), n@, r@) == before + replaced(rest, n@, r@));
            i += 1;
        }
    }
    assert(s@.skip(s.len() as int) == Seq::<char>::empty());
    out
}

/// `s.trim_start_matches(p)` for a non-empty pattern `p`.
pub fn trim_start_matches(s: &[char], p: &[char]) -> (r: Vec<char>)
    requires
        p.len() > 0,
    ensures
        r@ == without_all_prefixes(s@, p@),
{
    let mut i: usize = 0;
    assert(s@.skip(0) == s@);
    while i < s.len() && starts_with_at(s, i, p)
        invariant
            i <= s.len(),
            p.len() > 0,
            without_all_prefixes(s@.skip(i as int), p@) == without_all_prefixes(s@, p@),
        decreases s.len() - i,
    {
        assert(s@.skip(i as int).skip(p@.len() as int) == s@.skip(i + p@.len()));
        i += p.len();
    }
    if i < s.len() {
        proof {
            assert(!p@.is_prefix_of(s@.skip(i as int)));
        }
    } else {
        assert(s@.skip(i as int).len() == 0);
    }
    copy_range(s, i, s.len())
}

/// `s.trim_matches(c)`.
pub fn trim_matches(s: &[char], c: char) -> (r: Vec<char>)
    ensures
        r@ == trimmed_of(s@, c),
{
    let mut a: usize = 0;
    while a < s.len() && s[a] == c
        invariant
            a <= s.len(),
            forall|j: int| 0 <= j < a ==> #[trigger] s@[j] == c,
        decreases s.len() - a,
    {
        a += 1;
    }
    proof {
        lemma_leading_count_is(s@, c, a as int);
    }
    let ghost t = s@.skip(a as int);
    let mut b: usize = s.len();
    while b > a && s[b - 1] == c
        invariant
            a <= b <= s.len(),
            forall|j: int| b <= j < s.len() ==> #[trigger] s@[j] == c,
        decreases b,
    {
        b -= 1;
    }
    proof {
        assert forall|j: int| t.len() - (s.len() - b) <= j < t.len() implies #[trigger] t[j] == c by {
            assert(t[j] == s@[j + a]);
        }
        if s.len() - b < t.len() {
            assert(t[t.len() - (s.len() - b) - 1] == s@[b - 1]);
        }
        lemma_trailing_count_is(t, c, s.len() - b);
        assert(trimmed_of(s@, c) == s@.subrange(a as int, b as int));
    }
    copy_range(s, a, b)
}


/// `t` with `\r\n` and then each remaining `\r` written as `\n`.
pub open spec fn newlines_normalized(t: Seq<char>) -> Seq<char> {
    replaced(replaced(t, seq!['\r', '\n'], seq!['\n']), seq!['\r'], seq!['\n'])
}

/// Writes every line ending (`\r\n`, `\n` or a lone `\r`) as `\n`, as script
/// sources are read.
pub fn normalize_newlines(text: &str) -> (r: String)
    ensures
        r@ == newlines_normalized(text@),
        !r@.contains('\r'),
{
    let mut crlf: Vec<char> = Vec::new();
    crlf.push('\r');
    crlf.push('\n');
    let mut lf: Vec<char> = Vec::new();
    lf.push('\n');
    let mut cr: Vec<char> = Vec::new();
    cr.push('\r');
    assert(crlf@ == seq!['\r', '\n']);
    assert(lf@ == seq!['\n']);
    assert(cr@ == seq!['\r']);
    let step = replace_all(&to_chars(text), &crlf, &lf);
    let out = replace_all(&step, &cr, &lf);
    proof {
        lemma_replaced_char_gone(step@, '\r', '\n');
    }
    from_chars(&out)
}

} // verus!
