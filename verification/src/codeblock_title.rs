use vstd::prelude::*;

use crate::text_utils::{
    chars_eq, copy_range, from_chars, join_with, joined, push_all, split_at_first, split_on,
    split_once, split_pieces, strip_prefix, to_chars, trim, trimmed, views_of, without_prefix,
};

verus! {

/// The language and file name of a titled code block fence: ```` ```lang:file ````.
#[derive(Debug, Clone, PartialEq, Eq)]
pub struct CodeblockTitle {
    pub language: String,
    pub filename: String,
}

/// Language and file name of a fence line ```` ```lang:file ````, both non-empty.
pub open spec fn title_of(line: Seq<char>) -> Option<(Seq<char>, Seq<char>)> {
    match without_prefix(line, "```"@) {
        None => None,
        Some(rest) => match split_at_first(rest, ':') {
            None => None,
            Some((language, filename)) => if language.len() == 0 || filename.len() == 0 {
                None
            } else {
                Some((language, filename))
            },
        },
    }
}

/// Reads a titled code block fence ```` ```lang:file ````.
pub fn parse_codeblock_title_line(line: &str) -> (r: Option<CodeblockTitle>)
    ensures
        match r {
            Some(t) => title_of(line@) == Some((t.language@, t.filename@)),
            None => title_of(line@) is None,
        },
{
    let rest = match strip_prefix(&to_chars(line), &to_chars("```")) {
        Some(r) => r,
        None => {
            return None;
        },
    };
    let (language, filename) = match split_once(&rest, ':') {
        Some(p) => p,
        None => {
            return None;
        },
    };
    if language.len() == 0 || filename.len() == 0 {
        return None;
    }
    Some(CodeblockTitle { language: from_chars(&language), filename: from_chars(&filename) })
}

/// The HTML text for one character.
pub open spec fn escaped_char(c: char) -> Seq<char> {
    if c == '&' {
        "&amp;"@
    } else if c == '<' {
        "&lt;"@
    } else if c == '>' {
        "&gt;"@
    } else if c == '"' {
        "&quot;"@
    } else if c == '\'' {
        "&apos;"@
    } else {
        seq![c]
    }
}

/// `s` with `& < > " '` written as HTML character references.
pub open spec fn escaped_html(s: Seq<char>) -> Seq<char>
    decreases s.len(),
{
    if s.len() == 0 {
        Seq::empty()
    } else {
        escaped_html(s.drop_last()) + escaped_char(s.last())
    }
}

/// Writes `& < > " '` as HTML character references.
pub fn escape_html(text: &str) -> (r: String)
    ensures
        r@ == escaped_html(text@),
{
    let s = to_chars(text);
    let mut out: Vec<char> = Vec::new();
    let mut i: usize = 0;
    while i < s.len()
        invariant
            i <= s.len(),
            s@ == text@,
            out@ == escaped_html(s@.take(i as int)),
        decreases s.len() - i,
    {
        let c = s[i];
        assert(s@.take(i + 1).drop_last() == s@.take(i as int));
        assert(s@.take(i + 1).last() == c);
        if c == '&' {
            push_all(&mut out, &to_chars("&amp;"));
        } else if c == '<' {
            push_all(&mut out, &to_chars("&lt;"));
        } else if c == '>' {
            push_all(&mut out, &to_chars("&gt;"));
        } else if c == '"' {
            push_all(&mut out, &to_chars("&quot;"));
        } else if c == '\'' {
            push_all(&mut out, &to_chars("&apos;"));
        } else {
            out.push(c);
        }
        i += 1;
    }
    assert(s@.take(s.len() as int) == s@);
    from_chars(&out)
}

/// A line without one trailing `\r`.
pub open spec fn without_cr(p: Seq<char>) -> Seq<char> {
    if p.len() > 0 && p.last() == '\r' {
        p.drop_last()
    } else {
        p
    }
}

/// `str::lines`: the text split at `\n`, each line without a trailing `\r`
/// (a final line without `\n` is kept as it is), and no empty last line
/// after a final `\n`.
pub open spec fn text_lines(s: Seq<char>) -> Seq<Seq<char>> {
    let parts = split_pieces(s, '\n');
    let body = parts.drop_last().map_values(|p: Seq<char>| without_cr(p));
    if parts.last().len() == 0 {
        body
    } else {
        body.push(parts.last())
    }
}

/// The lines of the page from line `i` on, titled code blocks being wrapped
/// in a `div` with the title above the block.
pub open spec fn transformed_lines(ls: Seq<Seq<char>>, i: int, in_titled_block: bool) -> Seq<
    Seq<char>,
>
    decreases ls.len() - i,
{
    if i < 0 || i >= ls.len() {
        Seq::empty()
    } else if !in_titled_block {
        match title_of(ls[i]) {
            Some((language, filename)) => seq![
                "<div class=\"codeblock-with-title\">"@,
                "<div class=\"codeblock-title\">"@ + escaped_html(filename) + "</div>"@,
                Seq::<char>::empty(),
                "```"@ + language,
            ] + transformed_lines(ls, i + 1, true),
            None => seq![ls[i]] + transformed_lines(ls, i + 1, false),
        }
    } else if trimmed(ls[i]) == "```"@ {
        seq!["```"@, Seq::<char>::empty(), "</div>"@] + transformed_lines(ls, i + 1, false)
    } else {
        seq![ls[i]] + transformed_lines(ls, i + 1, true)
    }
}

/// The page with titled code blocks rewritten, ending with a line break.
pub open spec fn transformed_markdown(s: Seq<char>) -> Seq<char> {
    joined(transformed_lines(text_lines(s), 0, false).push(Seq::empty()), "\n"@)
}

/// `input.lines()`.
fn text_lines_of(input: &str) -> (r: Vec<Vec<char>>)
    ensures
        views_of(r@) == text_lines(input@),
{
    let parts = split_on(&to_chars(input), '\n');
    proof {
        crate::text_utils::lemma_split_on_len(input@, '\n');
    }
    let ghost ps = views_of(parts@);
    let mut out: Vec<Vec<char>> = Vec::new();
    let mut i: usize = 0;
    while i + 1 < parts.len()
        invariant
            i + 1 <= parts.len(),
            ps == views_of(parts@),
            ps == split_pieces(input@, '\n'),
            views_of(out@) == ps.take(i as int).map_values(|p: Seq<char>| without_cr(p)),
        decreases parts.len() - i,
    {
        let p = parts[i].as_slice();
        let line = if p.len() > 0 && p[p.len() - 1] == '\r' {
            copy_range(p, 0, p.len() - 1)
        } else {
            copy_range(p, 0, p.len())
        };
        let ghost before = views_of(out@);
        assert(p@ == ps[i as int]);
        assert(line@ == without_cr(ps[i as int]));
        out.push(line);
        assert(views_of(out@) == before.push(without_cr(ps[i as int])));
        assert(ps.take(i + 1).map_values(|p: Seq<char>| without_cr(p)) == ps.take(i as int).map_values(
            |p: Seq<char>| without_cr(p),
        ).push(without_cr(ps[i as int])));
        i += 1;
    }
    assert(ps.take(i as int) == ps.drop_last());
    let last = parts[i].as_slice();
    if last.len() > 0 {
        let ghost before = views_of(out@);
        let c = copy_range(last, 0, last.len());
        assert(c@ == ps.last());
        out.push(c);
        assert(views_of(out@) == before.push(ps.last()));
    }
    out
}

/// Rewrites each titled code block ```` ```lang:file ```` into a plain
/// ```` ```lang ```` block inside `<div class="codeblock-with-title">`, with
/// the file name (HTML-escaped) in a `<div class="codeblock-title">` above it.
pub fn transform_markdown(input: &str) -> (r: String)
    ensures
        r@ == transformed_markdown(input@),
{
    let lines = text_lines_of(input);
    let ghost ls = views_of(lines@);
    let fence = to_chars("```");
    let mut out: Vec<Vec<char>> = Vec::new();
    let mut in_titled_block = false;
    let mut i: usize = 0;
    assert(views_of(out@) == Seq::<Seq<char>>::empty());
    while i < lines.len()
        invariant
            i <= lines.len(),
            ls == views_of(lines@),
            fence@ == "```"@,
            transformed_lines(ls, 0, false) == views_of(out@) + transformed_lines(
                ls,
                i as int,
                in_titled_block,
            ),
        decreases lines.len() - i,
    {
        let ghost before = views_of(out@);
        let line = lines[i].as_slice();
        let mut handled = false;
        if !in_titled_block {
            let text = from_chars(line);
            if let Some(parsed) = parse_codeblock_title_line(text.as_str()) {
                out.push(to_chars("<div class=\"codeblock-with-title\">"));
                let mut title = to_chars("<div class=\"codeblock-title\">");
                push_all(&mut title, &to_chars(escape_html(parsed.filename.as_str()).as_str()));
                push_all(&mut title, &to_chars("</div>"));
                out.push(title);
                out.push(Vec::new());
                let mut open = to_chars("```");
                push_all(&mut open, &to_chars(parsed.language.as_str()));
                out.push(open);
                in_titled_block = true;
                handled = true;
                proof {
                    let added = views_of(out@).subrange(before.len() as int, views_of(out@).len() as int);
                    assert(views_of(out@) == before + added);
                }
            }
        } else if chars_eq(&trim(line), &fence) {
            out.push(to_chars("```"));
            out.push(Vec::new());
            out.push(to_chars("</div>"));
            in_titled_block = false;
            handled = true;
            proof {
                let added = views_of(out@).subrange(before.len() as int, views_of(out@).len() as int);
                assert(views_of(out@) == before + added);
            }
        }
        if !handled {
            let c = copy_range(line, 0, line.len());
            assert(c@ == ls[i as int]);
            out.push(c);
            assert(views_of(out@) == before + seq![ls[i as int]]);
        }
        i += 1;
    }
    let ghost body = views_of(out@);
    out.push(Vec::new());
    assert(views_of(out@) == body.push(Seq::<char>::empty()));
    from_chars(&join_with(&out, &to_chars("\n")))
}


// ---------------------------------------------------------------------------
// Laws
// ---------------------------------------------------------------------------
/// Escaped text holds no `<`, `>`, `"` or `'`, so it is safe inside HTML
/// elements and quoted attributes.
pub proof fn lemma_escaped_has_no_markup(s: Seq<char>)
    ensures
        !escaped_html(s).contains('<'),
        !escaped_html(s).contains('>'),
        !escaped_html(s).contains('"'),
        !escaped_html(s).contains('\''),
    decreases s.len(),
{
    if s.len() > 0 {
        lemma_escaped_has_no_markup(s.drop_last());
        reveal_strlit("&amp;");
        reveal_strlit("&lt;");
        reveal_strlit("&gt;");
        reveal_strlit("&quot;");
        reveal_strlit("&apos;");
        let a = escaped_html(s.drop_last());
        let b = escaped_char(s.last());
        assert(escaped_html(s) == a + b);
        assert forall|c: char| c == '<' || c == '>' || c == '"' || c == '\'' implies !(a + b).contains(c) by {
            if (a + b).contains(c) {
                let j = choose|j: int| 0 <= j < (a + b).len() && (a + b)[j] == c;
                if j < a.len() {
                    assert(a[j] == c);
                } else {
                    assert(b[j - a.len()] == c);
                }
            }
        }
    }
}

/// Without titled code blocks, the lines are copied as they are.
proof fn lemma_untitled_lines_copied(ls: Seq<Seq<char>>, i: int)
    requires
        0 <= i <= ls.len(),
        forall|k: int| 0 <= k < ls.len() ==> title_of(#[trigger] ls[k]) is None,
    ensures
        transformed_lines(ls, i, false) == ls.skip(i),
    decreases ls.len() - i,
{
    if i < ls.len() {
        lemma_untitled_lines_copied(ls, i + 1);
        assert(ls.skip(i) == seq![ls[i]] + ls.skip(i + 1));
    } else {
        assert(ls.skip(i) == Seq::<Seq<char>>::empty());
    }
}

/// A page without titled code blocks, without `\r`, and ending with a line
/// break (or empty) comes out unchanged.
pub proof fn lemma_untitled_page_unchanged(s: Seq<char>)
    requires
        !s.contains('\r'),
        s.len() == 0 || s.last() == '\n',
        forall|k: int| 0 <= k < text_lines(s).len() ==> title_of(#[trigger] text_lines(s)[k]) is None,
    ensures
        transformed_markdown(s) == s,
{
    let parts = split_pieces(s, '\n');
    crate::text_utils::lemma_split_on_len(s, '\n');
    crate::text_utils::lemma_split_pieces_lack(s, '\n', '\r');
    crate::text_utils::lemma_join_split(s, '\n');
    reveal_strlit("\n");
    assert("\n"@ == seq!['\n']);
    let ls = text_lines(s);
    lemma_untitled_lines_copied(ls, 0);
    assert(ls.skip(0) == ls);
    assert(parts.last().len() == 0) by {
        if s.len() > 0 {
            assert(s.last() == '\n');
        }
    }
    assert forall|k: int| 0 <= k < parts.drop_last().len() implies without_cr(
        #[trigger] parts.drop_last()[k],
    ) == parts.drop_last()[k] by {
        let p = parts.drop_last()[k];
        assert(p == parts[k]);
        if p.len() > 0 && p.last() == '\r' {
            assert(parts[k][p.len() - 1] == '\r');
        }
    }
    assert(ls == parts.drop_last());
    assert(ls.push(Seq::<char>::empty()) == parts);
}

proof fn lemma_transformed_shift(a: Seq<Seq<char>>, rest: Seq<Seq<char>>, j: int, in_block: bool)
    requires
        0 <= j,
    ensures
        transformed_lines(a + rest, a.len() + j, in_block) == transformed_lines(rest, j, in_block),
    decreases rest.len() - j,
{
    let ls = a + rest;
    if j < rest.len() {
        assert(ls[a.len() + j] == rest[j]);
        lemma_transformed_shift(a, rest, j + 1, true);
        lemma_transformed_shift(a, rest, j + 1, false);
    }
}

proof fn lemma_block_body_copied(ls: Seq<Seq<char>>, i: int, end: int)
    requires
        0 <= i <= end <= ls.len(),
        forall|k: int| i <= k < end ==> trimmed(#[trigger] ls[k]) != "```"@,
    ensures
        transformed_lines(ls, i, true) == ls.subrange(i, end) + transformed_lines(ls, end, true),
    decreases end - i,
{
    if i < end {
        lemma_block_body_copied(ls, i + 1, end);
        assert(ls.subrange(i, end) == seq![ls[i]] + ls.subrange(i + 1, end));
    } else {
        assert(ls.subrange(i, end) == Seq::<Seq<char>>::empty());
    }
}

/// A titled code block is rewritten as a whole, and the page goes on after
/// it as a page of its own: for a fence line ```` ```lang:file ````, body lines
/// none of which closes the block, a closing line ```` ``` ```` and any lines
/// `rest` after it, the result is the `div` with the title, the block opened
/// as ```` ```lang ````, the body as it is, the block closed with the `div`,
/// and then `rest` transformed from the start, so that later titled blocks
/// are rewritten too.
pub proof fn lemma_titled_block_then_rest(
    fence: Seq<char>,
    body: Seq<Seq<char>>,
    close: Seq<char>,
    rest: Seq<Seq<char>>,
)
    requires
        title_of(fence) is Some,
        forall|k: int| 0 <= k < body.len() ==> trimmed(#[trigger] body[k]) != "```"@,
        trimmed(close) == "```"@,
    ensures
        ({
            let (language, filename) = title_of(fence).unwrap();
            transformed_lines(seq![fence] + body + seq![close] + rest, 0, false) == seq![
                "<div class=\"codeblock-with-title\">"@,
                "<div class=\"codeblock-title\">"@ + escaped_html(filename) + "</div>"@,
                Seq::<char>::empty(),
                "```"@ + language,
            ] + body + seq!["```"@, Seq::<char>::empty(), "</div>"@] + transformed_lines(rest, 0, false)
        }),
{
    let head = seq![fence] + body + seq![close];
    let ls = head + rest;
    let n = body.len() as int;
    assert(ls[0] == fence);
    assert forall|k: int| 1 <= k < 1 + n implies trimmed(#[trigger] ls[k]) != "```"@ by {
        assert(ls[k] == body[k - 1]);
    }
    lemma_block_body_copied(ls, 1, 1 + n);
    assert(ls.subrange(1, 1 + n) == body);
    assert(ls[1 + n] == close);
    lemma_transformed_shift(head, rest, 0, false);
    assert(head.len() == 2 + n);
}

} // verus!
