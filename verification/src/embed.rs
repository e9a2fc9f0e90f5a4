use vstd::prelude::*;

use crate::text_utils::{
    chars_eq, copy_range, from_chars, has_prefix, is_white_space, is_whitespace_char, join_with,
    joined, push_all, replace_all, replaced, split_on, split_pieces, starts_with, starts_with_at,
    to_chars, trim, trimmed, views_of,
};

verus! {

// ---------------------------------------------------------------------------
// Finding `require("name")`
// ---------------------------------------------------------------------------
/// Number of white-space characters from index `i` on.
pub open spec fn ws_run(s: Seq<char>, i: int) -> nat
    decreases s.len() - i,
{
    if 0 <= i < s.len() && is_white_space(s[i]) {
        1 + ws_run(s, i + 1)
    } else {
        0
    }
}

pub open spec fn is_quote(c: char) -> bool {
    c == '"' || c == '\''
}

/// Number of characters other than quotes from index `i` on.
pub open spec fn name_run(s: Seq<char>, i: int) -> nat
    decreases s.len() - i,
{
    if 0 <= i < s.len() && !is_quote(s[i]) {
        1 + name_run(s, i + 1)
    } else {
        0
    }
}

/// A `require` statement starting at index `p`: `require`, white space, an
/// optional `(`, white space, a quote, a non-empty module name without quotes,
/// a quote, white space and an optional `)`. Yields the end of the statement
/// and the range of the module name. This is the leftmost-first match of the
/// pattern `require\s*\(?\s*["']([^"']+)["']\s*\)?` at `p`.
pub open spec fn require_at(s: Seq<char>, p: int) -> Option<(int, int, int)> {
    if 0 <= p && "require"@.is_prefix_of(s.skip(p)) {
        let q1 = p + 7 + ws_run(s, p + 7);
        let q2 = if q1 < s.len() && s[q1] == '(' {
            q1 + 1
        } else {
            q1
        };
        let q3 = q2 + ws_run(s, q2);
        if q3 < s.len() && is_quote(s[q3]) {
            let gs = q3 + 1;
            let ge = gs + name_run(s, gs);
            if ge > gs && ge < s.len() {
                let q5 = ge + 1 + ws_run(s, ge + 1);
                let end = if q5 < s.len() && s[q5] == ')' {
                    q5 + 1
                } else {
                    q5
                };
                Some((end, gs, ge))
            } else {
                None
            }
        } else {
            None
        }
    } else {
        None
    }
}

/// The leftmost `require` statement at or after index `p`: its start, its end,
/// and the range of its module name.
pub open spec fn first_require_from(s: Seq<char>, p: int) -> Option<(int, int, int, int)>
    decreases s.len() - p,
{
    if p < 0 || p >= s.len() {
        None
    } else {
        match require_at(s, p) {
            Some((e, gs, ge)) => Some((p, e, gs, ge)),
            None => first_require_from(s, p + 1),
        }
    }
}

/// The first `require` statement of a line: the whole statement and the module name.
pub open spec fn require_captures(s: Seq<char>) -> Option<(Seq<char>, Seq<char>)> {
    match first_require_from(s, 0) {
        Some((p, e, gs, ge)) => Some((s.subrange(p, e), s.subrange(gs, ge))),
        None => None,
    }
}

proof fn lemma_ws_run(s: Seq<char>, i: int)
    requires
        0 <= i,
    ensures
        i + ws_run(s, i) <= s.len() || ws_run(s, i) == 0,
        forall|k: int| i <= k < i + ws_run(s, i) ==> is_white_space(#[trigger] s[k]),
        i + ws_run(s, i) < s.len() ==> !is_white_space(s[i + ws_run(s, i)]),
    decreases s.len() - i,
{
    if 0 <= i < s.len() && is_white_space(s[i]) {
        lemma_ws_run(s, i + 1);
    }
}

proof fn lemma_name_run(s: Seq<char>, i: int)
    requires
        0 <= i,
    ensures
        i + name_run(s, i) <= s.len() || name_run(s, i) == 0,
        i + name_run(s, i) < s.len() ==> is_quote(s[i + name_run(s, i)]),
    decreases s.len() - i,
{
    if 0 <= i < s.len() && !is_quote(s[i]) {
        lemma_name_run(s, i + 1);
    }
}

/// The statement ends after its start and within the line, and the name lies inside it.
proof fn lemma_require_at_bounds(s: Seq<char>, p: int)
    ensures
        require_at(s, p) matches Some((e, gs, ge)) ==> p + 7 < gs < ge < e <= s.len(),
{
    if 0 <= p && "require"@.is_prefix_of(s.skip(p)) {
        reveal_strlit("require");
        lemma_ws_run(s, p + 7);
        let q1 = p + 7 + ws_run(s, p + 7);
        let q2 = if q1 < s.len() && s[q1] == '(' {
            q1 + 1
        } else {
            q1
        };
        lemma_ws_run(s, q2);
        let q3 = q2 + ws_run(s, q2);
        if q3 < s.len() && is_quote(s[q3]) {
            lemma_name_run(s, q3 + 1);
            let ge = q3 + 1 + name_run(s, q3 + 1);
            if ge > q3 + 1 && ge < s.len() {
                lemma_ws_run(s, ge + 1);
            }
        }
    }
}

proof fn lemma_first_require_bounds(s: Seq<char>, p: int)
    requires
        0 <= p,
    ensures
        first_require_from(s, p) matches Some((b, e, gs, ge)) ==> p <= b && b + 7 < gs < ge < e
            <= s.len(),
    decreases s.len() - p,
{
    if p < s.len() {
        lemma_require_at_bounds(s, p);
        if require_at(s, p) is None {
            lemma_first_require_bounds(s, p + 1);
        }
    }
}

/// Length of the white-space run of `s` from `i`.
fn ws_run_at(s: &[char], i: usize) -> (r: usize)
    requires
        i <= s.len(),
    ensures
        r == ws_run(s@, i as int),
        i + r <= s.len(),
{
    let mut j = i;
    while j < s.len() && is_whitespace_char(s[j])
        invariant
            i <= j <= s.len(),
            ws_run(s@, i as int) == (j - i) + ws_run(s@, j as int),
        decreases s.len() - j,
    {
        j += 1;
    }
    j - i
}

/// Length of the run of non-quote characters of `s` from `i`.
fn name_run_at(s: &[char], i: usize) -> (r: usize)
    requires
        i <= s.len(),
    ensures
        r == name_run(s@, i as int),
        i + r <= s.len(),
{
    let mut j = i;
    while j < s.len() && !(s[j] == '"' || s[j] == '\'')
        invariant
            i <= j <= s.len(),
            name_run(s@, i as int) == (j - i) + name_run(s@, j as int),
        decreases s.len() - j,
    {
        j += 1;
    }
    j - i
}

/// The `require` statement starting at `p`, if there is one.
fn require_at_pos(s: &[char], p: usize) -> (r: Option<(usize, usize, usize)>)
    requires
        p <= s.len(),
    ensures
        match r {
            Some((e, gs, ge)) => require_at(s@, p as int) == Some((e as int, gs as int, ge as int)),
            None => require_at(s@, p as int) is None,
        },
{
    let word = to_chars("require");
    proof {
        reveal_strlit("require");
    }
    if !starts_with_at(s, p, &word) {
        return None;
    }
    let q1 = p + 7 + ws_run_at(s, p + 7);
    let q2 = if q1 < s.len() && s[q1] == '(' {
        q1 + 1
    } else {
        q1
    };
    let q3 = q2 + ws_run_at(s, q2);
    if !(q3 < s.len() && (s[q3] == '"' || s[q3] == '\'')) {
        return None;
    }
    let gs = q3 + 1;
    let ge = gs + name_run_at(s, gs);
    if !(ge > gs && ge < s.len()) {
        return None;
    }
    let q5 = ge + 1 + ws_run_at(s, ge + 1);
    let end = if q5 < s.len() && s[q5] == ')' {
        q5 + 1
    } else {
        q5
    };
    Some((end, gs, ge))
}

/// The first `require` statement of a line: the whole statement and the
/// module name (the pattern `require\s*\(?\s*["']([^"']+)["']\s*\)?`).
pub fn find_require(line: &[char]) -> (r: Option<(Vec<char>, Vec<char>)>)
    ensures
        match r {
            Some((m, name)) => require_captures(line@) == Some((m@, name@)) && m@.len() > 0,
            None => require_captures(line@) is None,
        },
{
    let mut p: usize = 0;
    while p < line.len()
        invariant
            p <= line.len(),
            first_require_from(line@, 0) == first_require_from(line@, p as int),
        decreases line.len() - p,
    {
        if let Some((e, gs, ge)) = require_at_pos(line, p) {
            proof {
                lemma_require_at_bounds(line@, p as int);
            }
            return Some((copy_range(line, p, e), copy_range(line, gs, ge)));
        }
        p += 1;
    }
    None
}


// ---------------------------------------------------------------------------
// Names
// ---------------------------------------------------------------------------
pub open spec fn digit_char(d: nat) -> char {
    if d == 0 { '0' }
    else if d == 1 { '1' }
    else if d == 2 { '2' }
    else if d == 3 { '3' }
    else if d == 4 { '4' }
    else if d == 5 { '5' }
    else if d == 6 { '6' }
    else if d == 7 { '7' }
    else if d == 8 { '8' }
    else { '9' }
}

/// The decimal digits of `n`.
pub open spec fn decimal(n: nat) -> Seq<char>
    decreases n,
{
    if n < 10 {
        seq![digit_char(n)]
    } else {
        decimal(n / 10).push(digit_char(n % 10))
    }
}

fn decimal_digits(n: u64) -> (r: Vec<char>)
    ensures
        r@ == decimal(n as nat),
    decreases n,
{
    let d = n % 10;
    let c = if d == 0 { '0' }
    else if d == 1 { '1' }
    else if d == 2 { '2' }
    else if d == 3 { '3' }
    else if d == 4 { '4' }
    else if d == 5 { '5' }
    else if d == 6 { '6' }
    else if d == 7 { '7' }
    else if d == 8 { '8' }
    else { '9' };
    if n < 10 {
        let mut r = Vec::new();
        r.push(c);
        r
    } else {
        let mut r = decimal_digits(n / 10);
        r.push(c);
        r
    }
}

/// The call that replaces `require(...)` of the `index`-th embedded module.
pub open spec fn embed_function_name(index: nat) -> Seq<char> {
    "__aulua_embed_"@ + decimal(index) + "__()"@
}

/// The call that replaces `require(...)` of the `index`-th embedded module:
/// `__aulua_embed_<index>__()`.
pub fn get_embed_module_function_name(index: u64) -> (r: String)
    ensures
        r@ == embed_function_name(index as nat),
{
    let mut out = to_chars("__aulua_embed_");
    push_all(&mut out, &decimal_digits(index));
    push_all(&mut out, &to_chars("__()"));
    from_chars(&out)
}

/// The file that holds module `name`, relative to a search directory:
/// dots become `/` and `.lua` is added.
pub open spec fn lua_module_file(name: Seq<char>) -> Seq<char> {
    replaced(name, seq!['.'], seq!['/']) + ".lua"@
}

/// The file that holds module `name`, relative to a search directory.
pub fn lua_module_file_name(name: &str) -> (r: String)
    ensures
        r@ == lua_module_file(name@),
{
    let dot = to_chars(".");
    let slash = to_chars("/");
    proof {
        reveal_strlit(".");
        reveal_strlit("/");
    }
    assert(dot@ == seq!['.']);
    assert(slash@ == seq!['/']);
    let mut out = replace_all(&to_chars(name), &dot, &slash);
    push_all(&mut out, &to_chars(".lua"));
    from_chars(&out)
}

// ---------------------------------------------------------------------------
// Embedding
// ---------------------------------------------------------------------------
/// Why embedding failed.
#[derive(Debug, Clone, PartialEq)]
pub enum EmbedError {
    /// The line after `---$embed` holds no `require` statement.
    ExpectedRequire(String),
    /// `---$embed` is the last line, with no line after it.
    NothingToEmbed,
}

/// Mathematical value of an [`EmbedError`].
pub enum EmbedErrorView {
    ExpectedRequire(Seq<char>),
    NothingToEmbed,
}

impl View for EmbedError {
    type V = EmbedErrorView;

    open spec fn view(&self) -> EmbedErrorView {
        match self {
            EmbedError::ExpectedRequire(l) => EmbedErrorView::ExpectedRequire(l@),
            EmbedError::NothingToEmbed => EmbedErrorView::NothingToEmbed,
        }
    }
}

/// Where embedding stands.
#[derive(Debug, Clone, PartialEq)]
pub enum EmbedOutcome {
    /// The finished text.
    Done(String),
    /// The text of this module is needed next.
    NeedModule(String),
    /// Embedding failed.
    Failed(EmbedError),
}

/// Mathematical value of an [`EmbedOutcome`], with the finished text as lines.
pub enum EmbedLinesView {
    Done(Seq<Seq<char>>),
    NeedModule(Seq<char>),
    Failed(EmbedErrorView),
}

/// Index of `name` among the modules embedded so far.
pub open spec fn module_index(known: Seq<Seq<char>>, name: Seq<char>, k: int) -> Option<int>
    decreases known.len() - k,
{
    if k < 0 || k >= known.len() {
        None
    } else if known[k] == name {
        Some(k)
    } else {
        module_index(known, name, k + 1)
    }
}

pub open spec fn with_lines(pre: Seq<Seq<char>>, r: EmbedLinesView) -> EmbedLinesView {
    match r {
        EmbedLinesView::Done(rest) => EmbedLinesView::Done(pre + rest),
        other => other,
    }
}

proof fn lemma_with_lines_twice(a: Seq<Seq<char>>, b: Seq<Seq<char>>, r: EmbedLinesView)
    ensures
        with_lines(a, with_lines(b, r)) == with_lines(a + b, r),
{
    if let EmbedLinesView::Done(rest) = r {
        assert(a + (b + rest) == (a + b) + rest);
    }
}

/// The lines from `pos` on, with modules embedded. `known` are the modules
/// embedded so far, in order; `loaded` are the texts of the modules, in the
/// order they are first embedded. When a module is needed whose text is not
/// among `loaded`, the outcome names it.
pub open spec fn embed_from(
    lines: Seq<Seq<char>>,
    pos: int,
    known: Seq<Seq<char>>,
    loaded: Seq<Seq<char>>,
) -> EmbedLinesView
    decreases lines.len() - pos,
{
    if pos < 0 || pos >= lines.len() {
        EmbedLinesView::Done(Seq::empty())
    } else if has_prefix(trimmed(lines[pos]), "---$embed"@) {
        if pos + 1 >= lines.len() {
            EmbedLinesView::Failed(EmbedErrorView::NothingToEmbed)
        } else {
            let next = lines[pos + 1];
            match require_captures(next) {
                None => EmbedLinesView::Failed(EmbedErrorView::ExpectedRequire(next)),
                Some((m, name)) => match module_index(known, name, 0) {
                    Some(k) => with_lines(
                        seq![replaced(next, m, embed_function_name((k + 1) as nat))],
                        embed_from(lines, pos + 2, known, loaded),
                    ),
                    None => if known.len() < loaded.len() {
                        let f = embed_function_name(known.len() + 1);
                        with_lines(
                            seq![
                                "-- aulua embed: "@ + name,
                                "local function "@ + f,
                                loaded[known.len() as int],
                                "end"@,
                                replaced(next, m, f),
                            ],
                            embed_from(lines, pos + 2, known.push(name), loaded),
                        )
                    } else {
                        EmbedLinesView::NeedModule(name)
                    },
                },
            }
        }
    } else {
        let line = lines[pos];
        let out = match require_captures(line) {
            Some((m, name)) => match module_index(known, name, 0) {
                Some(k) => replaced(line, m, embed_function_name((k + 1) as nat)),
                None => line,
            },
            None => line,
        };
        with_lines(seq![out], embed_from(lines, pos + 1, known, loaded))
    }
}

/// Embedding in `content`, split into lines at `\n`, given the module texts
/// loaded so far; a finished text has its lines joined with `\n`.
pub open spec fn embed_outcome(content: Seq<char>, loaded: Seq<Seq<char>>) -> EmbedLinesView {
    embed_from(split_pieces(content, '\n'), 0, Seq::empty(), loaded)
}

pub open spec fn outcome_matches(r: EmbedOutcome, v: EmbedLinesView) -> bool {
    match (r, v) {
        (EmbedOutcome::Done(s), EmbedLinesView::Done(ls)) => s@ == joined(ls, "\n"@),
        (EmbedOutcome::NeedModule(n), EmbedLinesView::NeedModule(m)) => n@ == m,
        (EmbedOutcome::Failed(e), EmbedLinesView::Failed(f)) => e@ == f,
        _ => false,
    }
}

fn module_position(known: &Vec<Vec<char>>, name: &[char]) -> (r: Option<usize>)
    ensures
        match r {
            Some(k) => module_index(views_of(known@), name@, 0) == Some(k as int) && k < known.len(),
            None => module_index(views_of(known@), name@, 0) is None,
        },
{
    let ghost ks = views_of(known@);
    let mut k: usize = 0;
    while k < known.len()
        invariant
            k <= known.len(),
            ks == views_of(known@),
            module_index(ks, name@, 0) == module_index(ks, name@, k as int),
        decreases known.len() - k,
    {
        if chars_eq(known[k].as_slice(), name) {
            return Some(k);
        }
        k += 1;
    }
    None
}

pub open spec fn strings_view(v: Seq<String>) -> Seq<Seq<char>> {
    v.map_values(|s: String| s@)
}

/// Embeds modules into `content`: the line after each `---$embed` must hold
/// a `require` statement, whose module text is put into the script as a local
/// function the first time (`-- aulua embed: name`, `local function
/// __aulua_embed_<n>__()`, the text, `end`), the statement being replaced by a
/// call of that function; the `---$embed` line itself is dropped. Later
/// `require` statements of an embedded module become calls too.
/// `loaded` holds the texts of the modules in the order they are first
/// embedded; when the next one is missing, the outcome asks for it.
pub fn process_embeds_with_modules(content: &str, loaded: &[String]) -> (r: EmbedOutcome)
    ensures
        outcome_matches(r, embed_outcome(content@, strings_view(loaded@))),
{
    let ghost lv = strings_view(loaded@);
    let lines = split_on(&to_chars(content), '\n');
    let ghost ls = views_of(lines@);
    let marker = to_chars("---$embed");
    let mut out: Vec<Vec<char>> = Vec::new();
    let mut known: Vec<Vec<char>> = Vec::new();
    let mut pos: usize = 0;
    assert(views_of(out@) == Seq::<Seq<char>>::empty());
    assert(views_of(known@) == Seq::<Seq<char>>::empty());
    while pos < lines.len()
        invariant
            pos <= lines.len(),
            ls == views_of(lines@),
            ls == split_pieces(content@, '\n'),
            lv == strings_view(loaded@),
            marker@ == "---$embed"@,
            views_of(known@).len() <= lv.len(),
            embed_outcome(content@, lv) == with_lines(
                views_of(out@),
                embed_from(ls, pos as int, views_of(known@), lv),
            ),
        decreases lines.len() - pos,
    {
        let ghost before = views_of(out@);
        let ghost kv = views_of(known@);
        let line = lines[pos].as_slice();
        if starts_with(&trim(line), &marker) {
            if pos + 1 >= lines.len() {
                return EmbedOutcome::Failed(EmbedError::NothingToEmbed);
            }
            let next = lines[pos + 1].as_slice();
            match find_require(next) {
                None => {
                    return EmbedOutcome::Failed(EmbedError::ExpectedRequire(from_chars(next)));
                },
                Some((m, name)) => {
                    match module_position(&known, &name) {
                        Some(k) => {
                            let f = get_embed_module_function_name((k + 1) as u64);
                            let new_line = replace_all(next, &m, &to_chars(f.as_str()));
                            let ghost nl = new_line@;
                            out.push(new_line);
                            assert(views_of(out@) == before + seq![nl]);
                            proof {
                                lemma_with_lines_twice(before, seq![nl], embed_from(ls, pos + 2, kv, lv));
                            }
                        },
                        None => {
                            if known.len() >= loaded.len() {
                                return EmbedOutcome::NeedModule(from_chars(&name));
                            }
                            let f = get_embed_module_function_name((known.len() + 1) as u64);
                            let fc = to_chars(f.as_str());
                            let mut l1 = to_chars("-- aulua embed: ");
                            push_all(&mut l1, &name);
                            let mut l2 = to_chars("local function ");
                            push_all(&mut l2, &fc);
                            let l3 = to_chars(loaded[known.len()].as_str());
                            let l4 = to_chars("end");
                            let l5 = replace_all(next, &m, &fc);
                            let ghost added = seq![l1@, l2@, l3@, l4@, l5@];
                            out.push(l1);
                            out.push(l2);
                            out.push(l3);
                            out.push(l4);
                            out.push(l5);
                            assert(views_of(out@) == before + added);
                            let ghost nv = name@;
                            known.push(name);
                            assert(views_of(known@) == kv.push(nv));
                            proof {
                                lemma_with_lines_twice(before, added, embed_from(ls, pos + 2, kv.push(nv), lv));
                            }
                        },
                    }
                    pos += 2;
                },
            }
        } else {
            let new_line = match find_require(line) {
                Some((m, name)) => match module_position(&known, &name) {
                    Some(k) => {
                        let f = get_embed_module_function_name((k + 1) as u64);
                        replace_all(line, &m, &to_chars(f.as_str()))
                    },
                    None => copy_range(line, 0, line.len()),
                },
                None => copy_range(line, 0, line.len()),
            };
            assert(line@.subrange(0, line@.len() as int) == line@);
            let ghost nl = new_line@;
            out.push(new_line);
            assert(views_of(out@) == before + seq![nl]);
            proof {
                lemma_with_lines_twice(before, seq![nl], embed_from(ls, pos + 1, kv, lv));
            }
            pos += 1;
        }
    }
    EmbedOutcome::Done(from_chars(&join_with(&out, &to_chars("\n"))))
}


// ---------------------------------------------------------------------------
// Laws
// ---------------------------------------------------------------------------
proof fn lemma_no_directive_lines(lines: Seq<Seq<char>>, pos: int, loaded: Seq<Seq<char>>)
    requires
        0 <= pos <= lines.len(),
        forall|k: int| 0 <= k < lines.len() ==> !has_prefix(trimmed(#[trigger] lines[k]), "---$embed"@),
    ensures
        embed_from(lines, pos, Seq::empty(), loaded) == EmbedLinesView::Done(lines.skip(pos)),
    decreases lines.len() - pos,
{
    if pos < lines.len() {
        lemma_no_directive_lines(lines, pos + 1, loaded);
        assert(lines.skip(pos) == seq![lines[pos]] + lines.skip(pos + 1));
    } else {
        assert(lines.skip(pos) == Seq::<Seq<char>>::empty());
    }
}

/// A text without `---$embed` lines needs no module and comes out unchanged,
/// even where it has `require` statements.
pub proof fn lemma_no_directive_unchanged(content: Seq<char>, loaded: Seq<Seq<char>>)
    requires
        forall|k: int|
            0 <= k < split_pieces(content, '\n').len() ==> !has_prefix(
                trimmed(#[trigger] split_pieces(content, '\n')[k]),
                "---$embed"@,
            ),
    ensures
        embed_outcome(content, loaded) matches EmbedLinesView::Done(ls) && joined(ls, "\n"@)
            == content,
{
    let lines = split_pieces(content, '\n');
    lemma_no_directive_lines(lines, 0, loaded);
    assert(lines.skip(0) == lines);
    crate::text_utils::lemma_join_split(content, '\n');
    reveal_strlit("\n");
    assert("\n"@ == seq!['\n']);
}

proof fn lemma_module_index(known: Seq<Seq<char>>, name: Seq<char>, k: int)
    requires
        0 <= k,
    ensures
        module_index(known, name, k) matches Some(i) ==> k <= i < known.len() && known[i] == name
            && forall|j: int| k <= j < i ==> known[j] != name,
        module_index(known, name, k) is None ==> forall|j: int| k <= j < known.len() ==> known[j] != name,
    decreases known.len() - k,
{
    if k < known.len() && known[k] != name {
        lemma_module_index(known, name, k + 1);
    }
}

/// A module is embedded once. The first `---$embed` of a module not embedded
/// yet gives it the next number, `known.len() + 1`, and it keeps that number
/// whatever modules are embedded after it (`later`); so each later
/// `---$embed` or `require` of it becomes a call of that same function and
/// its text is not put in again.
pub proof fn lemma_embed_once(known: Seq<Seq<char>>, name: Seq<char>, later: Seq<Seq<char>>)
    requires
        module_index(known, name, 0) is None,
    ensures
        module_index(known.push(name) + later, name, 0) == Some(known.len() as int),
{
    let s = known.push(name) + later;
    lemma_module_index(known, name, 0);
    lemma_module_index(s, name, 0);
    assert(s[known.len() as int] == name);
    if let Some(i) = module_index(s, name, 0) {
        if i < known.len() {
            assert(s[i] == known[i]);
        }
    }
}

/// The whole embedding law. Let module `m` be met, not embedded yet (not in
/// `known`), at a `---$embed` directive on line `pos`, with `n` modules
/// embedded before it and its text at hand, and let `f` be
/// `__aulua_embed_<n + 1>__()`:
/// - there its text goes in once, after `-- aulua embed: m` and
///   `local function f` and before `end`, and its `require` becomes `f`;
/// - on any later line `q`, whatever modules were embedded in between
///   (`later`), a `require` of `m`, with or without `---$embed` before it,
///   becomes `f` and the text does not go in again;
/// - a `require` of a module not embedded at that point, without
///   `---$embed`, stays as it is.
pub proof fn lemma_embed_law(
    lines: Seq<Seq<char>>,
    pos: int,
    q: int,
    known: Seq<Seq<char>>,
    later: Seq<Seq<char>>,
    m: Seq<char>,
    loaded: Seq<Seq<char>>,
)
    requires
        0 <= pos,
        pos + 1 < lines.len(),
        has_prefix(trimmed(lines[pos]), "---$embed"@),
        require_captures(lines[pos + 1]) matches Some((_, name)) && name == m,
        module_index(known, m, 0) is None,
        known.len() < loaded.len(),
        0 <= q < lines.len(),
    ensures
        ({
            let f = embed_function_name(known.len() + 1);
            let call = require_captures(lines[pos + 1]).unwrap().0;
            embed_from(lines, pos, known, loaded) == with_lines(
                seq![
                    "-- aulua embed: "@ + m,
                    "local function "@ + f,
                    loaded[known.len() as int],
                    "end"@,
                    replaced(lines[pos + 1], call, f),
                ],
                embed_from(lines, pos + 2, known.push(m), loaded),
            )
        }),
        ({
            let f = embed_function_name(known.len() + 1);
            let now = known.push(m) + later;
            &&& (!has_prefix(trimmed(lines[q]), "---$embed"@) && require_captures(lines[q]) is Some
                && require_captures(lines[q]).unwrap().1 == m) ==> embed_from(lines, q, now, loaded) == with_lines(
                seq![replaced(lines[q], require_captures(lines[q]).unwrap().0, f)],
                embed_from(lines, q + 1, now, loaded),
            )
            &&& (has_prefix(trimmed(lines[q]), "---$embed"@) && q + 1 < lines.len() && require_captures(
                lines[q + 1],
            ) is Some && require_captures(lines[q + 1]).unwrap().1 == m) ==> embed_from(lines, q, now, loaded) == with_lines(
                seq![replaced(lines[q + 1], require_captures(lines[q + 1]).unwrap().0, f)],
                embed_from(lines, q + 2, now, loaded),
            )
        }),
        forall|k: Seq<Seq<char>>|
            (!has_prefix(trimmed(lines[q]), "---$embed"@) && require_captures(lines[q]) is Some
                && module_index(k, require_captures(lines[q]).unwrap().1, 0) is None) ==> #[trigger] embed_from(lines, q, k, loaded)
                == with_lines(seq![lines[q]], embed_from(lines, q + 1, k, loaded)),
{
    lemma_embed_once(known, m, later);
}

} // verus!
