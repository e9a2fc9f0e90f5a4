use vstd::prelude::*;

use crate::pack::strings_view;
use crate::text_utils::{
    copy_range, from_chars, joined, split_on, split_pieces, strip_prefix, to_chars, trim,
    trimmed, views_of, without_prefix,
};

verus! {

/// What a line of a script source is, as far as includes go.
#[derive(Debug, Clone, PartialEq)]
pub enum IncludeLine {
    /// An ordinary line, kept as it is.
    Text,
    /// `---$include "path"`: the line is replaced by the file at `path`.
    Include(String),
    /// `---$include` without a quoted path.
    Malformed,
}

/// Mathematical value of an [`IncludeLine`].
pub enum IncludeLineView {
    Text,
    Include(Seq<char>),
    Malformed,
}

impl View for IncludeLine {
    type V = IncludeLineView;

    open spec fn view(&self) -> IncludeLineView {
        match self {
            IncludeLine::Text => IncludeLineView::Text,
            IncludeLine::Include(p) => IncludeLineView::Include(p@),
            IncludeLine::Malformed => IncludeLineView::Malformed,
        }
    }
}

/// What a line is: an include directive `---$include "path"` (the rest of the
/// trimmed line, trimmed, must start and end with `"`), or an ordinary line.
pub open spec fn include_line(line: Seq<char>) -> IncludeLineView {
    match without_prefix(trimmed(line), "---$include"@) {
        None => IncludeLineView::Text,
        Some(rest) => {
            let rest = trimmed(rest);
            if rest.len() >= 2 && rest[0] == '"' && rest.last() == '"' {
                IncludeLineView::Include(rest.subrange(1, rest.len() - 1))
            } else {
                IncludeLineView::Malformed
            }
        },
    }
}

/// Classifies a line of a script source (see [`include_line`]).
pub fn classify_include_line(line: &str) -> (r: IncludeLine)
    ensures
        r@ == include_line(line@),
{
    let t = trim(&to_chars(line));
    match strip_prefix(&t, &to_chars("---$include")) {
        None => IncludeLine::Text,
        Some(rest) => {
            let rest = trim(&rest);
            let n = rest.len();
            if n >= 2 && rest[0] == '"' && rest[n - 1] == '"' {
                IncludeLine::Include(from_chars(&copy_range(&rest, 1, n - 1)))
            } else {
                IncludeLine::Malformed
            }
        },
    }
}

/// One piece of a script source: a line to keep, or a file to include in
/// place of the directive on line `line_number` (counted from 1).
#[derive(Debug, Clone, PartialEq)]
pub enum IncludePiece {
    Text(String),
    Include { path: String, line_number: usize },
}

/// The pieces of a script source in order, up to the first malformed
/// directive; and the number (from 1) of that directive's line, if there is one.
#[derive(Debug, Clone, PartialEq)]
pub struct IncludePlan {
    pub pieces: Vec<IncludePiece>,
    pub malformed_line: Option<usize>,
}

/// Mathematical value of an [`IncludePiece`]: the text, or the path and line number.
pub open spec fn piece_view(p: IncludePiece) -> (bool, Seq<char>, int) {
    match p {
        IncludePiece::Text(t) => (false, t@, 0),
        IncludePiece::Include { path, line_number } => (true, path@, line_number as int),
    }
}

/// The pieces of `lines[i..]` and the line number of the first malformed directive.
pub open spec fn include_pieces(lines: Seq<Seq<char>>, i: int) -> (Seq<(bool, Seq<char>, int)>, Option<int>)
    decreases lines.len() - i,
{
    if i < 0 || i >= lines.len() {
        (Seq::empty(), None)
    } else {
        let rest = include_pieces(lines, i + 1);
        match include_line(lines[i]) {
            IncludeLineView::Text => (seq![(false, lines[i], 0int)] + rest.0, rest.1),
            IncludeLineView::Include(p) => (seq![(true, p, i + 1)] + rest.0, rest.1),
            IncludeLineView::Malformed => (Seq::empty(), Some(i + 1)),
        }
    }
}

/// Splits a script source into lines at `\n` and classifies them, stopping
/// at the first malformed `---$include` directive. The caller replaces each
/// include by the file's own expansion and joins the results with `\n`.
pub fn plan_includes(content: &str) -> (r: IncludePlan)
    ensures
        (r.pieces@.map_values(|p: IncludePiece| piece_view(p)), match r.malformed_line {
            Some(n) => Some(n as int),
            None => None,
        }) == include_pieces(split_pieces(content@, '\n'), 0),
{
    let lines = split_on(&to_chars(content), '\n');
    let ghost ls = views_of(lines@);
    let mut pieces: Vec<IncludePiece> = Vec::new();
    let mut i: usize = 0;
    while i < lines.len()
        invariant
            i <= lines.len(),
            ls == views_of(lines@),
            ls == split_pieces(content@, '\n'),
            include_pieces(ls, 0) == (
                pieces@.map_values(|p: IncludePiece| piece_view(p)) + include_pieces(ls, i as int).0,
                include_pieces(ls, i as int).1,
            ),
        decreases lines.len() - i,
    {
        let ghost before = pieces@.map_values(|p: IncludePiece| piece_view(p));
        let line = from_chars(lines[i].as_slice());
        match classify_include_line(line.as_str()) {
            IncludeLine::Text => {
                pieces.push(IncludePiece::Text(line));
            },
            IncludeLine::Include(path) => {
                pieces.push(IncludePiece::Include { path, line_number: i + 1 });
            },
            IncludeLine::Malformed => {
                assert(include_pieces(ls, i as int).0 == Seq::<(bool, Seq<char>, int)>::empty());
                assert(before + Seq::<(bool, Seq<char>, int)>::empty() == before);
                return IncludePlan { pieces, malformed_line: Some(i + 1) };
            },
        }
        let ghost now = pieces@.map_values(|p: IncludePiece| piece_view(p));
        assert(now == before.push(now.last()));
        assert(before + (seq![now.last()] + include_pieces(ls, i + 1).0) == now + include_pieces(
            ls,
            i + 1,
        ).0);
        i += 1;
    }
    assert(pieces@.map_values(|p: IncludePiece| piece_view(p)) + Seq::<(bool, Seq<char>, int)>::empty()
        == pieces@.map_values(|p: IncludePiece| piece_view(p)));
    IncludePlan { pieces, malformed_line: None }
}

/// Every line gives one piece, in order: when no line from `i` on is a
/// malformed directive, the pieces of `lines[i..]` are as many as those
/// lines, piece `k` being line `i + k` itself when it is an ordinary line (an
/// empty one too) and the included path with the line's number (from 1)
/// when it is an include directive.
pub proof fn lemma_include_pieces_per_line(lines: Seq<Seq<char>>, i: int)
    requires
        0 <= i <= lines.len(),
        forall|k: int| i <= k < lines.len() ==> !(include_line(#[trigger] lines[k]) is Malformed),
    ensures
        include_pieces(lines, i).1 is None,
        include_pieces(lines, i).0.len() == lines.len() - i,
        forall|k: int|
            0 <= k < lines.len() - i ==> (#[trigger] include_pieces(lines, i).0[k]) == match include_line(
                lines[i + k],
            ) {
                IncludeLineView::Include(p) => (true, p, i + k + 1),
                _ => (false, lines[i + k], 0int),
            },
    decreases lines.len() - i,
{
    if i < lines.len() {
        lemma_include_pieces_per_line(lines, i + 1);
        let rest = include_pieces(lines, i + 1).0;
        let all = include_pieces(lines, i).0;
        assert forall|k: int| 0 <= k < lines.len() - i implies (#[trigger] all[k]) == match include_line(
            lines[i + k],
        ) {
            IncludeLineView::Include(p) => (true, p, i + k + 1),
            _ => (false, lines[i + k], 0int),
        } by {
            if k > 0 {
                assert(all[k] == rest[k - 1]);
                assert(i + 1 + (k - 1) == i + k);
            }
        }
    }
}

/// A source without include directives is planned line for line: one text
/// piece per line, each holding the line as it is (empty lines too), and
/// joining them with `\n` gives the source back.
pub proof fn lemma_plain_source_planned(content: Seq<char>)
    requires
        forall|k: int|
            0 <= k < split_pieces(content, '\n').len() ==> include_line(
                #[trigger] split_pieces(content, '\n')[k],
            ) is Text,
    ensures
        include_pieces(split_pieces(content, '\n'), 0) == (
            split_pieces(content, '\n').map_values(|l: Seq<char>| (false, l, 0int)),
            None::<int>,
        ),
        joined(split_pieces(content, '\n'), "\n"@) == content,
{
    let lines = split_pieces(content, '\n');
    lemma_include_pieces_per_line(lines, 0);
    assert(include_pieces(lines, 0).0 == lines.map_values(|l: Seq<char>| (false, l, 0int)));
    crate::text_utils::lemma_join_split(content, '\n');
    reveal_strlit("\n");
    assert("\n"@ == seq!['\n']);
}

/// Entering the file `path` while the files of `chain` are being expanded
/// (the include chain, outermost first): the chain afterwards, and whether
/// the file may be entered. A file already on the chain would include
/// itself, so it is refused; any other file, also one expanded before and
/// finished, is entered.
pub open spec fn visit(chain: Seq<Seq<char>>, path: Seq<char>) -> (Seq<Seq<char>>, bool) {
    if chain.contains(path) {
        (chain, false)
    } else {
        (chain.push(path), true)
    }
}

/// Leaving the file `path` once its expansion is finished: it is taken off
/// the end of the chain. Nothing changes, and the result is `false`, when the
/// chain does not end with it.
pub open spec fn leave(chain: Seq<Seq<char>>, path: Seq<char>) -> (Seq<Seq<char>>, bool) {
    if chain.len() > 0 && chain.last() == path {
        (chain.drop_last(), true)
    } else {
        (chain, false)
    }
}

/// Enters the file `path` on the include chain `visited` (see [`visit`]);
/// returns `false`, and changes nothing, for a file already on the chain.
pub fn record_visit(visited: &mut Vec<String>, path: &str) -> (r: bool)
    ensures
        (strings_view(final(visited)@), r) == visit(strings_view(old(visited)@), path@),
{
    let p = String::from_str(path);
    let ghost sv = strings_view(visited@);
    let mut i: usize = 0;
    while i < visited.len()
        invariant
            i <= visited.len(),
            sv == strings_view(visited@),
            p@ == path@,
            forall|j: int| 0 <= j < i ==> sv[j] != path@,
        decreases visited.len() - i,
    {
        if visited[i] == p {
            assert(sv[i as int] == path@);
            return false;
        }
        i += 1;
    }
    assert(!sv.contains(path@));
    visited.push(p);
    assert(strings_view(visited@) == sv.push(path@));
    true
}

/// Leaves the file `path` once its expansion is finished (see [`leave`]).
pub fn leave_visit(visited: &mut Vec<String>, path: &str) -> (r: bool)
    ensures
        (strings_view(final(visited)@), r) == leave(strings_view(old(visited)@), path@),
{
    let ghost sv = strings_view(visited@);
    let n = visited.len();
    if n > 0 && visited[n - 1] == String::from_str(path) {
        assert(sv.last() == path@);
        visited.pop();
        assert(strings_view(visited@) == sv.drop_last());
        true
    } else {
        false
    }
}

/// The chain after entering (`true`) or leaving (`false`) each named file in turn.
pub open spec fn chain_after(chain: Seq<Seq<char>>, steps: Seq<(bool, Seq<char>)>) -> Seq<Seq<char>>
    decreases steps.len(),
{
    if steps.len() == 0 {
        chain
    } else {
        let before = chain_after(chain, steps.drop_last());
        let (enter, name) = steps.last();
        if enter {
            visit(before, name).0
        } else {
            leave(before, name).0
        }
    }
}

proof fn lemma_chain_keeps(chain: Seq<Seq<char>>, path: Seq<char>, steps: Seq<(bool, Seq<char>)>)
    requires
        chain.contains(path),
        forall|k: int| 0 <= k < steps.len() ==> (#[trigger] steps[k]).1 != path,
    ensures
        chain_after(chain, steps).contains(path),
    decreases steps.len(),
{
    if steps.len() > 0 {
        assert(forall|k: int| 0 <= k < steps.drop_last().len() ==> steps.drop_last()[k] == steps[k]);
        lemma_chain_keeps(chain, path, steps.drop_last());
        let before = chain_after(chain, steps.drop_last());
        let (enter, name) = steps.last();
        assert(steps[steps.len() - 1].1 == name);
        let i = choose|i: int| 0 <= i < before.len() && before[i] == path;
        if enter {
            if !before.contains(name) {
                assert(before.push(name)[i] == path);
            }
        } else if before.len() > 0 && before.last() == name {
            assert(i < before.len() - 1);
            assert(before.drop_last()[i] == path);
        }
    }
}

/// A file being expanded stays refused: once it is entered, entering and
/// leaving other files inside its expansion never takes it off the chain, so
/// an include of it from there, however deep, is refused.
pub proof fn lemma_visited_stays_refused(
    chain: Seq<Seq<char>>,
    path: Seq<char>,
    steps: Seq<(bool, Seq<char>)>,
)
    requires
        forall|k: int| 0 <= k < steps.len() ==> (#[trigger] steps[k]).1 != path,
    ensures
        !visit(chain_after(visit(chain, path).0, steps), path).1,
{
    if !chain.contains(path) {
        assert(chain.push(path)[chain.len() as int] == path);
    }
    lemma_chain_keeps(visit(chain, path).0, path, steps);
}

/// A finished file may be included again: entering a file and leaving it
/// when its expansion is done gives back the chain as it was, and entering it
/// again from there is allowed.
pub proof fn lemma_finished_visit(chain: Seq<Seq<char>>, path: Seq<char>)
    requires
        !chain.contains(path),
    ensures
        visit(chain, path) == (chain.push(path), true),
        leave(chain.push(path), path) == (chain, true),
        visit(leave(chain.push(path), path).0, path).1,
{
    assert(chain.push(path).drop_last() == chain);
}

} // verus!
