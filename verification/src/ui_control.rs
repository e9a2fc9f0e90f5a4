use vstd::prelude::*;

use crate::text_utils::{
    chars_eq, contains_char, copy_range, from_chars, join_with, push_all, trim_matches,
    trimmed_of, lemma_split_on_len, split_on, split_once, starts_with,
    strip_prefix, to_chars, trim, trim_start_matches, first_index_of, has_prefix, joined, split_at_first, split_pieces, trimmed, views_of,
    without_all_prefixes, without_prefix,
};

verus! {

/// The kind of a UI control declared by a `---$kind:` comment.
#[derive(Debug, Clone, Copy, PartialEq, Eq, Structural)]
pub enum UiControlKind {
    Select,
    Track,
    Check,
    CheckSection,
    Color,
    File,
    Folder,
    Font,
    Figure,
    Text,
    String,
    Value,
}

/// Extra data of a select list (its options) or a track bar (its range and step).
#[derive(Debug, Clone, PartialEq)]
pub enum UiControlMeta {
    Select(Vec<(String, String)>),
    Track { min: String, max: String, step: Option<String> },
}

/// A UI control declaration found in a script source: the header comment at
/// `start_line`, the `local name = value` assignment, and the line range
/// `start_line..=end_line` that the control replaces.
#[derive(Debug, Clone, PartialEq)]
pub struct UiControlBlock {
    pub kind: UiControlKind,
    pub label: String,
    pub var_name: String,
    pub default_value: String,
    pub start_line: usize,
    pub end_line: usize,
    pub meta: Option<UiControlMeta>,
}

/// Mathematical value of a [`UiControlMeta`].
pub enum MetaView {
    Select(Seq<(Seq<char>, Seq<char>)>),
    Track { min: Seq<char>, max: Seq<char>, step: Option<Seq<char>> },
}

/// Mathematical value of a [`UiControlBlock`].
pub struct BlockView {
    pub kind: UiControlKind,
    pub label: Seq<char>,
    pub var_name: Seq<char>,
    pub default_value: Seq<char>,
    pub start_line: int,
    pub end_line: int,
    pub meta: Option<MetaView>,
}

pub open spec fn pair_view(p: (String, String)) -> (Seq<char>, Seq<char>) {
    (p.0@, p.1@)
}

pub open spec fn opt_string_view(o: Option<String>) -> Option<Seq<char>> {
    match o {
        Some(s) => Some(s@),
        None => None,
    }
}

impl View for UiControlMeta {
    type V = MetaView;

    open spec fn view(&self) -> MetaView {
        match self {
            UiControlMeta::Select(opts) => MetaView::Select(opts@.map_values(|p: (String, String)| pair_view(p))),
            UiControlMeta::Track { min, max, step } => MetaView::Track {
                min: min@,
                max: max@,
                step: opt_string_view(*step),
            },
        }
    }
}

impl View for UiControlBlock {
    type V = BlockView;

    open spec fn view(&self) -> BlockView {
        BlockView {
            kind: self.kind,
            label: self.label@,
            var_name: self.var_name@,
            default_value: self.default_value@,
            start_line: self.start_line as int,
            end_line: self.end_line as int,
            meta: match self.meta {
                Some(m) => Some(m@),
                None => None,
            },
        }
    }
}

pub open spec fn opt_block_view(o: Option<UiControlBlock>) -> Option<BlockView> {
    match o {
        Some(b) => Some(b@),
        None => None,
    }
}

pub open spec fn blocks_view(bs: Seq<UiControlBlock>) -> Seq<BlockView> {
    bs.map_values(|b: UiControlBlock| b@)
}

// ---------------------------------------------------------------------------
// What parsing finds
// ---------------------------------------------------------------------------
/// Name and value of an assignment line `local name = value` (given trimmed).
/// Every leading `local ` is dropped, the text is split at the first `=`,
/// and both sides are trimmed.
pub open spec fn assignment(l: Seq<char>) -> Option<(Seq<char>, Seq<char>)> {
    if has_prefix(l, "local "@) && first_index_of(l, '=') is Some {
        match split_at_first(trimmed(without_all_prefixes(l, "local "@)), '=') {
            Some((n, v)) => Some((trimmed(n), trimmed(v))),
            None => None,
        }
    } else {
        None
    }
}

/// The last line of a control whose assignment is line `i`: the line after it
/// too when that line exists and is empty.
pub open spec fn block_end(lines: Seq<Seq<char>>, i: int) -> int {
    if i + 1 < lines.len() && lines[i + 1].len() == 0 {
        i + 1
    } else {
        i
    }
}

pub open spec fn make_block(
    kind: UiControlKind,
    label: Seq<char>,
    start: int,
    nv: (Seq<char>, Seq<char>),
    end: int,
    meta: Option<MetaView>,
) -> BlockView {
    BlockView {
        kind,
        label,
        var_name: nv.0,
        default_value: nv.1,
        start_line: start,
        end_line: end,
        meta,
    }
}

/// A select list: option lines `---name=value` (other `---` lines are skipped)
/// up to the assignment. Yields the block (if any) and the next line to read.
pub open spec fn select_from(
    lines: Seq<Seq<char>>,
    start: int,
    label: Seq<char>,
    pos: int,
    opts: Seq<(Seq<char>, Seq<char>)>,
) -> (Option<BlockView>, int)
    decreases lines.len() - pos,
{
    if pos < 0 || pos >= lines.len() {
        (None, pos)
    } else {
        let l = trimmed(lines[pos]);
        match without_prefix(l, "---"@) {
            Some(opt) => select_from(
                lines,
                start,
                label,
                pos + 1,
                match split_at_first(opt, '=') {
                    Some((n, v)) => opts.push((trimmed(n), trimmed(v))),
                    None => opts,
                },
            ),
            None => match assignment(l) {
                Some(nv) => (
                    Some(
                        make_block(
                            UiControlKind::Select,
                            trimmed(label),
                            start,
                            nv,
                            block_end(lines, pos),
                            Some(MetaView::Select(opts)),
                        ),
                    ),
                    pos + 1,
                ),
                None => (None, pos),
            },
        }
    }
}

/// Track-bar settings: minimum, maximum and step.
pub type TrackOpts = (Option<Seq<char>>, Option<Seq<char>>, Option<Seq<char>>);

/// Sets one track-bar setting; `None` when it was already set.
pub open spec fn set_track_opt(opts: TrackOpts, which: int, v: Seq<char>) -> Option<TrackOpts> {
    if which == 0 {
        if opts.0 is Some { None } else { Some((Some(v), opts.1, opts.2)) }
    } else if which == 1 {
        if opts.1 is Some { None } else { Some((opts.0, Some(v), opts.2)) }
    } else {
        if opts.2 is Some { None } else { Some((opts.0, opts.1, Some(v))) }
    }
}

/// Which setting a header part `key = value` names: 0 min, 1 max, 2 step.
pub open spec fn track_key(key: Seq<char>) -> Option<int> {
    if key == "min"@ {
        Some(0)
    } else if key == "max"@ {
        Some(1)
    } else if key == "step"@ {
        Some(2)
    } else {
        None
    }
}

/// Settings from the header parts `parts[k..]`, each `key = value` with a
/// known key, a non-empty value, and no key twice.
pub open spec fn track_header_opts(parts: Seq<Seq<char>>, k: int, opts: TrackOpts) -> Option<TrackOpts>
    decreases parts.len() - k,
{
    if k < 0 || k >= parts.len() {
        Some(opts)
    } else {
        match split_at_first(parts[k], '=') {
            None => None,
            Some((k0, v0)) => {
                let key = trimmed(k0);
                let val = trimmed(v0);
                if val.len() == 0 {
                    None
                } else {
                    match track_key(key) {
                        None => None,
                        Some(w) => match set_track_opt(opts, w, val) {
                            None => None,
                            Some(o) => track_header_opts(parts, k + 1, o),
                        },
                    }
                }
            },
        }
    }
}

/// The comma-separated parts of a track-bar header, each trimmed.
pub open spec fn header_parts(t: Seq<char>) -> Seq<Seq<char>> {
    split_pieces(t, ',').map_values(|p: Seq<char>| trimmed(p))
}

/// The header of a track bar, `label, min = a, max = b, step = c` (settings optional).
pub open spec fn track_header(input: Seq<char>) -> Option<(Seq<char>, TrackOpts)> {
    let t = trimmed(input);
    if t.len() == 0 {
        None
    } else {
        let parts = header_parts(t);
        let label = parts[0];
        if label.len() == 0 {
            None
        } else {
            match track_header_opts(parts, 1, (None, None, None)) {
                Some(o) => Some((label, o)),
                None => None,
            }
        }
    }
}

/// A setting line `---min=a`, `---max=b` or `---step=c`: which setting and its value.
pub open spec fn track_option_line(line: Seq<char>) -> Option<(int, Seq<char>)> {
    let l = trimmed(line);
    match without_prefix(l, "---min="@) {
        Some(v) => Some((0, trimmed(v))),
        None => match without_prefix(l, "---max="@) {
            Some(v) => Some((1, trimmed(v))),
            None => match without_prefix(l, "---step="@) {
                Some(v) => Some((2, trimmed(v))),
                None => None,
            },
        },
    }
}

/// A track bar: setting lines and other `--` comments up to the assignment.
/// A setting given twice ends the search without a block.
pub open spec fn track_from(
    lines: Seq<Seq<char>>,
    start: int,
    label: Seq<char>,
    pos: int,
    opts: TrackOpts,
) -> (Option<BlockView>, int)
    decreases lines.len() - pos,
{
    if pos < 0 || pos >= lines.len() {
        (None, pos)
    } else {
        let l = trimmed(lines[pos]);
        match track_option_line(l) {
            Some((w, v)) => match set_track_opt(opts, w, v) {
                None => (None, pos),
                Some(o) => track_from(lines, start, label, pos + 1, o),
            },
            None => if has_prefix(l, "--"@) {
                track_from(lines, start, label, pos + 1, opts)
            } else {
                match assignment(l) {
                    Some(nv) => (
                        Some(
                            make_block(
                                UiControlKind::Track,
                                label,
                                start,
                                nv,
                                block_end(lines, pos),
                                Some(
                                    MetaView::Track {
                                        min: match opts.0 {
                                            Some(m) => m,
                                            None => "0"@,
                                        },
                                        max: match opts.1 {
                                            Some(m) => m,
                                            None => "100"@,
                                        },
                                        step: opts.2,
                                    },
                                ),
                            ),
                        ),
                        pos + 1,
                    ),
                    None => (None, pos),
                }
            },
        }
    }
}

/// A control without extra data: `--` comments are skipped up to the assignment.
/// `None` when a line that is neither is met: there the search never ends.
pub open spec fn plain_from(
    lines: Seq<Seq<char>>,
    kind: UiControlKind,
    start: int,
    label: Seq<char>,
    pos: int,
) -> Option<(Option<BlockView>, int)>
    decreases lines.len() - pos,
{
    if pos < 0 || pos >= lines.len() {
        Some((None, pos))
    } else {
        let l = trimmed(lines[pos]);
        if has_prefix(l, "--"@) {
            plain_from(lines, kind, start, label, pos + 1)
        } else {
            match assignment(l) {
                Some(nv) => Some(
                    (
                        Some(make_block(kind, trimmed(label), start, nv, block_end(lines, pos), None)),
                        pos + 1,
                    ),
                ),
                None => None,
            }
        }
    }
}

/// A file control: the assignment must be the very next line.
pub open spec fn file_at(lines: Seq<Seq<char>>, start: int, label: Seq<char>, pos: int) -> (
    Option<BlockView>,
    int,
) {
    if 0 <= pos < lines.len() {
        match assignment(trimmed(lines[pos])) {
            Some(nv) => (
                Some(
                    make_block(
                        UiControlKind::File,
                        trimmed(label),
                        start,
                        nv,
                        block_end(lines, pos),
                        None,
                    ),
                ),
                pos + 1,
            ),
            None => (None, pos),
        }
    } else {
        (None, pos)
    }
}

/// The control a line declares, read from the lines after it: the control (if
/// any) and the next line to read. `None` when reading never ends.
pub open spec fn header_step(lines: Seq<Seq<char>>, pos: int) -> Option<(Option<BlockView>, int)> {
    let l = trimmed(lines[pos]);
    if let Some(label) = without_prefix(l, "---$select:"@) {
        Some(select_from(lines, pos, label, pos + 1, Seq::empty()))
    } else if let Some(header) = without_prefix(l, "---$track:"@) {
        match track_header(header) {
            Some((label, opts)) => Some(track_from(lines, pos, label, pos + 1, opts)),
            None => Some((None, pos + 1)),
        }
    } else if let Some(label) = without_prefix(l, "---$check:"@) {
        plain_from(lines, UiControlKind::Check, pos, label, pos + 1)
    } else if let Some(label) = without_prefix(l, "---$checksection:"@) {
        plain_from(lines, UiControlKind::CheckSection, pos, label, pos + 1)
    } else if let Some(label) = without_prefix(l, "---$color:"@) {
        plain_from(lines, UiControlKind::Color, pos, label, pos + 1)
    } else if let Some(label) = without_prefix(l, "---$file:"@) {
        Some(file_at(lines, pos, label, pos + 1))
    } else if let Some(label) = without_prefix(l, "---$folder:"@) {
        plain_from(lines, UiControlKind::Folder, pos, label, pos + 1)
    } else if let Some(label) = without_prefix(l, "---$font:"@) {
        plain_from(lines, UiControlKind::Font, pos, label, pos + 1)
    } else if let Some(label) = without_prefix(l, "---$figure:"@) {
        plain_from(lines, UiControlKind::Figure, pos, label, pos + 1)
    } else if let Some(label) = without_prefix(l, "---$text:"@) {
        plain_from(lines, UiControlKind::Text, pos, label, pos + 1)
    } else if let Some(label) = without_prefix(l, "---$string:"@) {
        plain_from(lines, UiControlKind::String, pos, label, pos + 1)
    } else if let Some(label) = without_prefix(l, "---$value:"@) {
        plain_from(lines, UiControlKind::Value, pos, label, pos + 1)
    } else {
        Some((None, pos + 1))
    }
}

proof fn lemma_select_advances(
    lines: Seq<Seq<char>>,
    start: int,
    label: Seq<char>,
    pos: int,
    opts: Seq<(Seq<char>, Seq<char>)>,
)
    requires
        0 <= pos <= lines.len(),
    ensures
        pos <= select_from(lines, start, label, pos, opts).1 <= lines.len(),
    decreases lines.len() - pos,
{
    if pos < lines.len() {
        let l = trimmed(lines[pos]);
        if let Some(opt) = without_prefix(l, "---"@) {
            let o2 = match split_at_first(opt, '=') {
                Some((n, v)) => opts.push((trimmed(n), trimmed(v))),
                None => opts,
            };
            lemma_select_advances(lines, start, label, pos + 1, o2);
        }
    }
}

proof fn lemma_track_advances(
    lines: Seq<Seq<char>>,
    start: int,
    label: Seq<char>,
    pos: int,
    opts: TrackOpts,
)
    requires
        0 <= pos <= lines.len(),
    ensures
        pos <= track_from(lines, start, label, pos, opts).1 <= lines.len(),
    decreases lines.len() - pos,
{
    if pos < lines.len() {
        let l = trimmed(lines[pos]);
        match track_option_line(l) {
            Some((w, v)) => {
                if let Some(o) = set_track_opt(opts, w, v) {
                    lemma_track_advances(lines, start, label, pos + 1, o);
                }
            },
            None => {
                if has_prefix(l, "--"@) {
                    lemma_track_advances(lines, start, label, pos + 1, opts);
                }
            },
        }
    }
}

proof fn lemma_plain_advances(
    lines: Seq<Seq<char>>,
    kind: UiControlKind,
    start: int,
    label: Seq<char>,
    pos: int,
)
    requires
        0 <= pos <= lines.len(),
    ensures
        plain_from(lines, kind, start, label, pos) matches Some((_, next)) ==> pos <= next
            <= lines.len(),
    decreases lines.len() - pos,
{
    if pos < lines.len() {
        if has_prefix(trimmed(lines[pos]), "--"@) {
            lemma_plain_advances(lines, kind, start, label, pos + 1);
        }
    }
}

/// Reading a control moves past its header line and stays within the text.
pub proof fn lemma_step_advances(lines: Seq<Seq<char>>, pos: int)
    requires
        0 <= pos < lines.len(),
    ensures
        header_step(lines, pos) matches Some((_, next)) ==> pos < next <= lines.len(),
{
    let l = trimmed(lines[pos]);
    let p = pos + 1;
    let e: Seq<(Seq<char>, Seq<char>)> = Seq::empty();
    if let Some(label) = without_prefix(l, "---$select:"@) {
        lemma_select_advances(lines, pos, label, p, e);
    } else if let Some(header) = without_prefix(l, "---$track:"@) {
        if let Some((label, opts)) = track_header(header) {
            lemma_track_advances(lines, pos, label, p, opts);
        }
    } else {
        if let Some(label) = without_prefix(l, "---$check:"@) {
            lemma_plain_advances(lines, UiControlKind::Check, pos, label, p);
        }
        if let Some(label) = without_prefix(l, "---$checksection:"@) {
            lemma_plain_advances(lines, UiControlKind::CheckSection, pos, label, p);
        }
        if let Some(label) = without_prefix(l, "---$color:"@) {
            lemma_plain_advances(lines, UiControlKind::Color, pos, label, p);
        }
        if let Some(label) = without_prefix(l, "---$folder:"@) {
            lemma_plain_advances(lines, UiControlKind::Folder, pos, label, p);
        }
        if let Some(label) = without_prefix(l, "---$font:"@) {
            lemma_plain_advances(lines, UiControlKind::Font, pos, label, p);
        }
        if let Some(label) = without_prefix(l, "---$figure:"@) {
            lemma_plain_advances(lines, UiControlKind::Figure, pos, label, p);
        }
        if let Some(label) = without_prefix(l, "---$text:"@) {
            lemma_plain_advances(lines, UiControlKind::Text, pos, label, p);
        }
        if let Some(label) = without_prefix(l, "---$string:"@) {
            lemma_plain_advances(lines, UiControlKind::String, pos, label, p);
        }
        if let Some(label) = without_prefix(l, "---$value:"@) {
            lemma_plain_advances(lines, UiControlKind::Value, pos, label, p);
        }
    }
}

/// The controls declared from line `pos` on, in order; `None` when reading never ends.
pub open spec fn scan(lines: Seq<Seq<char>>, pos: int) -> Option<Seq<BlockView>>
    decreases lines.len() - pos,
{
    if pos < 0 || pos >= lines.len() {
        Some(Seq::empty())
    } else {
        match header_step(lines, pos) {
            None => None,
            Some((b, next)) => {
                proof {
                    lemma_step_advances(lines, pos);
                }
                match scan(lines, next) {
                    None => None,
                    Some(rest) => Some(
                        match b {
                            Some(b) => seq![b] + rest,
                            None => rest,
                        },
                    ),
                }
            },
        }
    }
}

/// The controls that `source` declares, its lines being split at `\n`;
/// `None` when reading never ends.
pub open spec fn ui_blocks_of(source: Seq<char>) -> Option<Seq<BlockView>> {
    scan(split_pieces(source, '\n'), 0)
}


// ---------------------------------------------------------------------------
// Parsing
// ---------------------------------------------------------------------------
pub open spec fn chars_opt(o: Option<Vec<char>>) -> Option<Seq<char>> {
    match o {
        Some(v) => Some(v@),
        None => None,
    }
}

/// Track-bar settings read so far.
struct TrackOptions {
    min: Option<Vec<char>>,
    max: Option<Vec<char>>,
    step: Option<Vec<char>>,
}

impl TrackOptions {
    spec fn view(&self) -> TrackOpts {
        (chars_opt(self.min), chars_opt(self.max), chars_opt(self.step))
    }
}

/// A setting line of a track bar.
enum TrackOptionLine {
    Min(Vec<char>),
    Max(Vec<char>),
    Step(Vec<char>),
}

impl TrackOptionLine {
    spec fn view(&self) -> (int, Seq<char>) {
        match self {
            TrackOptionLine::Min(v) => (0, v@),
            TrackOptionLine::Max(v) => (1, v@),
            TrackOptionLine::Step(v) => (2, v@),
        }
    }
}

/// Name, value and last line of the control whose assignment is line `pos`
/// (`line` is that line, trimmed).
fn parse_assignment(line: &[char], lines: &Vec<Vec<char>>, pos: usize) -> (r: Option<
    (Vec<char>, Vec<char>, usize),
>)
    requires
        pos < lines.len(),
    ensures
        match r {
            Some((n, v, end)) => assignment(line@) == Some((n@, v@)) && end == block_end(
                views_of(lines@),
                pos as int,
            ),
            None => assignment(line@) is None,
        },
{
    let local = to_chars("local ");
    proof {
        reveal_strlit("local ");
    }
    if starts_with(line, &local) && contains_char(line, '=') {
        let rest = trim(&trim_start_matches(line, &local));
        match split_once(&rest, '=') {
            Some((n, v)) => {
                let end = if pos + 1 < lines.len() && lines[pos + 1].len() == 0 {
                    pos + 1
                } else {
                    pos
                };
                Some((trim(&n), trim(&v), end))
            },
            None => None,
        }
    } else {
        None
    }
}

pub open spec fn pairs_view(v: Seq<(String, String)>) -> Seq<(Seq<char>, Seq<char>)> {
    v.map_values(|p: (String, String)| pair_view(p))
}

fn parse_select_block(lines: &Vec<Vec<char>>, start_line: usize, label: &[char], pos: usize) -> (r:
    (Option<UiControlBlock>, usize))
    requires
        pos <= lines.len(),
    ensures
        (opt_block_view(r.0), r.1 as int) == select_from(
            views_of(lines@),
            start_line as int,
            label@,
            pos as int,
            Seq::empty(),
        ),
{
    let ghost ls = views_of(lines@);
    let dashes = to_chars("---");
    let mut options: Vec<(String, String)> = Vec::new();
    let mut p = pos;
    assert(pairs_view(options@) == Seq::<(Seq<char>, Seq<char>)>::empty());
    while p < lines.len()
        invariant
            pos <= p <= lines.len(),
            ls == views_of(lines@),
            dashes@ == "---"@,
            select_from(ls, start_line as int, label@, pos as int, Seq::empty()) == select_from(
                ls,
                start_line as int,
                label@,
                p as int,
                pairs_view(options@),
            ),
        decreases lines.len() - p,
    {
        let line = trim(lines[p].as_slice());
        match strip_prefix(&line, &dashes) {
            Some(opt) => {
                if let Some((n, v)) = split_once(&opt, '=') {
                    let ghost before = pairs_view(options@);
                    let name = from_chars(&trim(&n));
                    let value = from_chars(&trim(&v));
                    options.push((name, value));
                    assert(pairs_view(options@) == before.push((trimmed(n@), trimmed(v@))));
                }
                p += 1;
            },
            None => {
                match parse_assignment(&line, lines, p) {
                    Some((n, v, end)) => {
                        let block = UiControlBlock {
                            kind: UiControlKind::Select,
                            label: from_chars(&trim(label)),
                            var_name: from_chars(&n),
                            default_value: from_chars(&v),
                            start_line,
                            end_line: end,
                            meta: Some(UiControlMeta::Select(options)),
                        };
                        return (Some(block), p + 1);
                    },
                    None => {
                        return (None, p);
                    },
                }
            },
        }
    }
    (None, p)
}


/// Which setting `key` names: 0 min, 1 max, 2 step.
fn track_key_of(key: &[char]) -> (r: Option<usize>)
    ensures
        match r {
            Some(w) => track_key(key@) == Some(w as int),
            None => track_key(key@) is None,
        },
{
    if chars_eq(key, &to_chars("min")) {
        Some(0)
    } else if chars_eq(key, &to_chars("max")) {
        Some(1)
    } else if chars_eq(key, &to_chars("step")) {
        Some(2)
    } else {
        None
    }
}

/// Sets setting `which` (0 min, 1 max, 2 step); `false`, and nothing set, when it was set already.
fn set_track_option(options: &mut TrackOptions, which: usize, value: Vec<char>) -> (r: bool)
    requires
        which < 3,
    ensures
        match set_track_opt(old(options).view(), which as int, value@) {
            Some(o) => r && final(options).view() == o,
            None => !r && final(options).view() == old(options).view(),
        },
{
    if which == 0 {
        if options.min.is_some() {
            return false;
        }
        options.min = Some(value);
    } else if which == 1 {
        if options.max.is_some() {
            return false;
        }
        options.max = Some(value);
    } else {
        if options.step.is_some() {
            return false;
        }
        options.step = Some(value);
    }
    true
}

/// Label and settings of a track-bar header.
fn parse_track_header(input: &[char]) -> (r: Option<(Vec<char>, TrackOptions)>)
    ensures
        match r {
            Some((label, opts)) => track_header(input@) == Some((label@, opts.view())),
            None => track_header(input@) is None,
        },
{
    let t = trim(input);
    if t.len() == 0 {
        return None;
    }
    let raw = split_on(&t, ',');
    proof {
        lemma_split_on_len(t@, ',');
    }
    let ghost parts_spec = header_parts(t@);
    let mut parts: Vec<Vec<char>> = Vec::new();
    let mut i: usize = 0;
    while i < raw.len()
        invariant
            i <= raw.len(),
            views_of(raw@) == split_pieces(t@, ','),
            parts@.len() == i,
            forall|j: int| 0 <= j < i ==> (#[trigger] parts@[j])@ == trimmed(raw@[j]@),
        decreases raw.len() - i,
    {
        parts.push(trim(raw[i].as_slice()));
        i += 1;
    }
    assert(views_of(parts@) == parts_spec);
    let label = parts[0].clone();
    assert(label@ == parts_spec[0]);
    if label.len() == 0 {
        return None;
    }
    assert(track_header(input@) == match track_header_opts(parts_spec, 1, (None, None, None)) {
        Some(o) => Some((parts_spec[0], o)),
        None => None,
    });
    let mut opts = TrackOptions { min: None, max: None, step: None };
    let mut k: usize = 1;
    while k < parts.len()
        invariant
            1 <= k <= parts.len(),
            views_of(parts@) == parts_spec,
            label@ == parts_spec[0],
            track_header(input@) == match track_header_opts(parts_spec, 1, (None, None, None)) {
                Some(o) => Some((parts_spec[0], o)),
                None => None,
            },
            track_header_opts(parts_spec, 1, (None, None, None)) == track_header_opts(
                parts_spec,
                k as int,
                opts.view(),
            ),
        decreases parts.len() - k,
    {
        match split_once(parts[k].as_slice(), '=') {
            None => {
                return None;
            },
            Some((key, val)) => {
                let key = trim(&key);
                let val = trim(&val);
                if val.len() == 0 {
                    return None;
                }
                match track_key_of(&key) {
                    None => {
                        return None;
                    },
                    Some(w) => {
                        if !set_track_option(&mut opts, w, val) {
                            return None;
                        }
                    },
                }
            },
        }
        k += 1;
    }
    Some((label, opts))
}

/// A setting line `---min=a`, `---max=b` or `---step=c`.
fn parse_track_option_line(line: &[char]) -> (r: Option<TrackOptionLine>)
    ensures
        match r {
            Some(o) => track_option_line(line@) == Some(o.view()),
            None => track_option_line(line@) is None,
        },
{
    let l = trim(line);
    if let Some(v) = strip_prefix(&l, &to_chars("---min=")) {
        Some(TrackOptionLine::Min(trim(&v)))
    } else if let Some(v) = strip_prefix(&l, &to_chars("---max=")) {
        Some(TrackOptionLine::Max(trim(&v)))
    } else if let Some(v) = strip_prefix(&l, &to_chars("---step=")) {
        Some(TrackOptionLine::Step(trim(&v)))
    } else {
        None
    }
}

/// Records a setting line; `None` when that setting was given already.
fn apply_track_option_line(options: &mut TrackOptions, line: TrackOptionLine) -> (r: Option<()>)
    ensures
        match set_track_opt(old(options).view(), line.view().0, line.view().1) {
            Some(o) => r is Some && final(options).view() == o,
            None => r is None && final(options).view() == old(options).view(),
        },
{
    let ok = match line {
        TrackOptionLine::Min(v) => set_track_option(options, 0, v),
        TrackOptionLine::Max(v) => set_track_option(options, 1, v),
        TrackOptionLine::Step(v) => set_track_option(options, 2, v),
    };
    if ok {
        Some(())
    } else {
        None
    }
}

fn chars_or(o: Option<Vec<char>>, default: &str) -> (r: String)
    ensures
        r@ == match chars_opt(o) {
            Some(v) => v,
            None => default@,
        },
{
    match o {
        Some(v) => from_chars(&v),
        None => String::from_str(default),
    }
}

fn parse_track_block(lines: &Vec<Vec<char>>, start_line: usize, header: &[char], pos: usize) -> (r:
    (Option<UiControlBlock>, usize))
    requires
        pos <= lines.len(),
    ensures
        (opt_block_view(r.0), r.1 as int) == match track_header(header@) {
            Some((label, opts)) => track_from(
                views_of(lines@),
                start_line as int,
                label,
                pos as int,
                opts,
            ),
            None => (None, pos as int),
        },
{
    let ghost ls = views_of(lines@);
    let (label, mut opts) = match parse_track_header(header) {
        Some(h) => h,
        None => {
            return (None, pos);
        },
    };
    let ghost opts0 = opts.view();
    let dashes = to_chars("--");
    let mut p = pos;
    while p < lines.len()
        invariant
            pos <= p <= lines.len(),
            ls == views_of(lines@),
            dashes@ == "--"@,
            track_header(header@) == Some((label@, opts0)),
            track_from(ls, start_line as int, label@, pos as int, opts0) == track_from(
                ls,
                start_line as int,
                label@,
                p as int,
                opts.view(),
            ),
        decreases lines.len() - p,
    {
        let line = trim(lines[p].as_slice());
        match parse_track_option_line(&line) {
            Some(option_line) => {
                if apply_track_option_line(&mut opts, option_line).is_none() {
                    return (None, p);
                }
                p += 1;
            },
            None => {
                if starts_with(&line, &dashes) {
                    p += 1;
                } else {
                    match parse_assignment(&line, lines, p) {
                        Some((n, v, end)) => {
                            let meta = UiControlMeta::Track {
                                min: chars_or(opts.min, "0"),
                                max: chars_or(opts.max, "100"),
                                step: match opts.step {
                                    Some(s) => Some(from_chars(&s)),
                                    None => None,
                                },
                            };
                            let block = UiControlBlock {
                                kind: UiControlKind::Track,
                                label: from_chars(&label),
                                var_name: from_chars(&n),
                                default_value: from_chars(&v),
                                start_line,
                                end_line: end,
                                meta: Some(meta),
                            };
                            return (Some(block), p + 1);
                        },
                        None => {
                            return (None, p);
                        },
                    }
                }
            },
        }
    }
    (None, p)
}


/// A control without extra data; `None` when reading would never end.
fn parse_ui_block_no_meta(
    lines: &Vec<Vec<char>>,
    kind: UiControlKind,
    start_line: usize,
    label: &[char],
    pos: usize,
) -> (r: Option<(Option<UiControlBlock>, usize)>)
    requires
        pos <= lines.len(),
    ensures
        match r {
            Some((b, next)) => plain_from(
                views_of(lines@),
                kind,
                start_line as int,
                label@,
                pos as int,
            ) == Some((opt_block_view(b), next as int)),
            None => plain_from(views_of(lines@), kind, start_line as int, label@, pos as int) is None,
        },
{
    let ghost ls = views_of(lines@);
    let dashes = to_chars("--");
    let mut p = pos;
    while p < lines.len()
        invariant
            pos <= p <= lines.len(),
            ls == views_of(lines@),
            dashes@ == "--"@,
            plain_from(ls, kind, start_line as int, label@, pos as int) == plain_from(
                ls,
                kind,
                start_line as int,
                label@,
                p as int,
            ),
        decreases lines.len() - p,
    {
        let line = trim(lines[p].as_slice());
        if starts_with(&line, &dashes) {
            p += 1;
        } else {
            match parse_assignment(&line, lines, p) {
                Some((n, v, end)) => {
                    let block = UiControlBlock {
                        kind,
                        label: from_chars(&trim(label)),
                        var_name: from_chars(&n),
                        default_value: from_chars(&v),
                        start_line,
                        end_line: end,
                        meta: None,
                    };
                    return Some((Some(block), p + 1));
                },
                None => {
                    return None;
                },
            }
        }
    }
    Some((None, p))
}

/// A file control, whose assignment must be the next line.
fn parse_file_block(lines: &Vec<Vec<char>>, start_line: usize, label: &[char], pos: usize) -> (r:
    (Option<UiControlBlock>, usize))
    requires
        pos <= lines.len(),
    ensures
        (opt_block_view(r.0), r.1 as int) == file_at(
            views_of(lines@),
            start_line as int,
            label@,
            pos as int,
        ),
{
    if pos < lines.len() {
        let line = trim(lines[pos].as_slice());
        if let Some((n, v, end)) = parse_assignment(&line, lines, pos) {
            let block = UiControlBlock {
                kind: UiControlKind::File,
                label: from_chars(&trim(label)),
                var_name: from_chars(&n),
                default_value: from_chars(&v),
                start_line,
                end_line: end,
                meta: None,
            };
            return (Some(block), pos + 1);
        }
    }
    (None, pos)
}

/// Reads the control that line `pos` declares, if any.
fn read_control(lines: &Vec<Vec<char>>, pos: usize) -> (r: Option<(Option<UiControlBlock>, usize)>)
    requires
        pos < lines.len(),
    ensures
        match r {
            Some((b, next)) => header_step(views_of(lines@), pos as int) == Some(
                (opt_block_view(b), next as int),
            ),
            None => header_step(views_of(lines@), pos as int) is None,
        },
{
    let line = trim(lines[pos].as_slice());
    let next = pos + 1;
    if let Some(label) = strip_prefix(&line, &to_chars("---$select:")) {
        Some(parse_select_block(lines, pos, &label, next))
    } else if let Some(header) = strip_prefix(&line, &to_chars("---$track:")) {
        Some(parse_track_block(lines, pos, &header, next))
    } else if let Some(label) = strip_prefix(&line, &to_chars("---$check:")) {
        parse_ui_block_no_meta(lines, UiControlKind::Check, pos, &label, next)
    } else if let Some(label) = strip_prefix(&line, &to_chars("---$checksection:")) {
        parse_ui_block_no_meta(lines, UiControlKind::CheckSection, pos, &label, next)
    } else if let Some(label) = strip_prefix(&line, &to_chars("---$color:")) {
        parse_ui_block_no_meta(lines, UiControlKind::Color, pos, &label, next)
    } else if let Some(label) = strip_prefix(&line, &to_chars("---$file:")) {
        Some(parse_file_block(lines, pos, &label, next))
    } else if let Some(label) = strip_prefix(&line, &to_chars("---$folder:")) {
        parse_ui_block_no_meta(lines, UiControlKind::Folder, pos, &label, next)
    } else if let Some(label) = strip_prefix(&line, &to_chars("---$font:")) {
        parse_ui_block_no_meta(lines, UiControlKind::Font, pos, &label, next)
    } else if let Some(label) = strip_prefix(&line, &to_chars("---$figure:")) {
        parse_ui_block_no_meta(lines, UiControlKind::Figure, pos, &label, next)
    } else if let Some(label) = strip_prefix(&line, &to_chars("---$text:")) {
        parse_ui_block_no_meta(lines, UiControlKind::Text, pos, &label, next)
    } else if let Some(label) = strip_prefix(&line, &to_chars("---$string:")) {
        parse_ui_block_no_meta(lines, UiControlKind::String, pos, &label, next)
    } else if let Some(label) = strip_prefix(&line, &to_chars("---$value:")) {
        parse_ui_block_no_meta(lines, UiControlKind::Value, pos, &label, next)
    } else {
        Some((None, next))
    }
}

/// The UI controls that `source` declares, or `None` on a source where
/// scanning would never end (a control without extra data whose header is
/// followed by a line that is neither a `--` comment nor an assignment).
pub fn try_parse_ui_blocks(source: &str) -> (r: Option<Vec<UiControlBlock>>)
    ensures
        match r {
            Some(bs) => ui_blocks_of(source@) == Some(blocks_view(bs@)),
            None => ui_blocks_of(source@) is None,
        },
{
    let chars = to_chars(source);
    let lines = split_on(&chars, '\n');
    let ghost ls = views_of(lines@);
    let mut blocks: Vec<UiControlBlock> = Vec::new();
    let mut pos: usize = 0;
    assert(blocks_view(blocks@) == Seq::<BlockView>::empty());
    while pos < lines.len()
        invariant
            pos <= lines.len(),
            ls == views_of(lines@),
            ls == split_pieces(source@, '\n'),
            scan(ls, 0) == match scan(ls, pos as int) {
                Some(rest) => Some(blocks_view(blocks@) + rest),
                None => None,
            },
        decreases lines.len() - pos,
    {
        proof {
            lemma_step_advances(ls, pos as int);
        }
        match read_control(&lines, pos) {
            None => {
                return None;
            },
            Some((b, next)) => {
                let ghost before = blocks_view(blocks@);
                match b {
                    Some(block) => {
                        blocks.push(block);
                        assert(blocks_view(blocks@) == before.push(block@));
                        proof {
                            if let Some(rest) = scan(ls, next as int) {
                                assert(before + (seq![block@] + rest) == before.push(block@)
                                    + rest);
                            }
                        }
                    },
                    None => {},
                }
                pos = next;
            },
        }
    }
    Some(blocks)
}

/// The UI controls that `source` declares, in order. The caller must rule out
/// sources on which the scan never ends (see [`try_parse_ui_blocks`]).
pub fn parse_ui_blocks(source: &str) -> (r: Vec<UiControlBlock>)
    requires
        ui_blocks_of(source@) is Some,
    ensures
        ui_blocks_of(source@) == Some(blocks_view(r@)),
{
    match try_parse_ui_blocks(source) {
        Some(bs) => bs,
        None => Vec::new(),
    }
}


// ---------------------------------------------------------------------------
// Applying
// ---------------------------------------------------------------------------
/// `,name=value` for each option of a select list, in order.
pub open spec fn select_options_text(opts: Seq<(Seq<char>, Seq<char>)>) -> Seq<char>
    decreases opts.len(),
{
    if opts.len() == 0 {
        Seq::empty()
    } else {
        select_options_text(opts.drop_last()) + ","@ + opts.last().0 + "="@ + opts.last().1
    }
}

/// `--tag@var:label`.
pub open spec fn control_head(tag: Seq<char>, b: BlockView) -> Seq<char> {
    "--"@ + tag + "@"@ + b.var_name + ":"@ + b.label
}

/// The line that replaces a control in the built script.
pub open spec fn render_block(b: BlockView) -> Seq<char> {
    match b.kind {
        UiControlKind::Select => control_head("select"@, b) + "="@ + b.default_value + match b.meta {
            Some(MetaView::Select(opts)) => select_options_text(opts),
            _ => Seq::empty(),
        },
        UiControlKind::Track => control_head("track"@, b) + match b.meta {
            Some(MetaView::Track { min, max, step }) => ","@ + min + ","@ + max + ","@
                + b.default_value + match step {
                Some(s) => ","@ + s,
                None => Seq::empty(),
            },
            _ => Seq::empty(),
        },
        UiControlKind::Check => control_head("check"@, b) + ","@ + b.default_value,
        UiControlKind::CheckSection => control_head("checksection"@, b) + ","@ + b.default_value,
        UiControlKind::Color => control_head("color"@, b) + ","@ + b.default_value,
        UiControlKind::File => control_head("file"@, b),
        UiControlKind::Folder => control_head("folder"@, b),
        UiControlKind::Font => control_head("font"@, b) + ","@ + trimmed_of(b.default_value, '"'),
        UiControlKind::Figure => control_head("figure"@, b) + ","@ + trimmed_of(
            b.default_value,
            '"',
        ),
        UiControlKind::Text => control_head("text"@, b) + ","@ + trimmed_of(b.default_value, '"'),
        UiControlKind::String => control_head("string"@, b) + ","@ + trimmed_of(
            b.default_value,
            '"',
        ),
        UiControlKind::Value => control_head("value"@, b) + ","@ + b.default_value,
    }
}

/// Lines `start..=end` replaced by the single line `line`.
pub open spec fn splice_lines(lines: Seq<Seq<char>>, start: int, end: int, line: Seq<char>) -> Seq<
    Seq<char>,
> {
    lines.take(start) + seq![line] + lines.skip(end + 1)
}

/// Whether lines `start..=end` can be replaced: `start <= end + 1 <= lines.len()`.
pub open spec fn splice_ok(lines: Seq<Seq<char>>, start: int, end: int) -> bool {
    0 <= start <= end + 1 <= lines.len()
}

/// The lines after replacing each control's range by its rendered line, the
/// last control first; `None` when some range does not fit the lines it is
/// applied to.
pub open spec fn apply_blocks(lines: Seq<Seq<char>>, blocks: Seq<BlockView>) -> Option<
    Seq<Seq<char>>,
>
    decreases blocks.len(),
{
    if blocks.len() == 0 {
        Some(lines)
    } else {
        let b = blocks.last();
        if splice_ok(lines, b.start_line, b.end_line) {
            apply_blocks(
                splice_lines(lines, b.start_line, b.end_line, render_block(b)),
                blocks.drop_last(),
            )
        } else {
            None
        }
    }
}

/// The built text of `source` with `blocks` applied, `None` when a range does not fit.
pub open spec fn applied_text(source: Seq<char>, blocks: Seq<BlockView>) -> Option<Seq<char>> {
    match apply_blocks(split_pieces(source, '\n'), blocks) {
        Some(ls) => Some(joined(ls, "\n"@)),
        None => None,
    }
}

fn push_str(dst: &mut Vec<char>, s: &str)
    ensures
        final(dst)@ == old(dst)@ + s@,
{
    push_all(dst, &to_chars(s));
}

fn push_control_head(dst: &mut Vec<char>, tag: &str, b: &UiControlBlock)
    ensures
        final(dst)@ == old(dst)@ + control_head(tag@, b@),
{
    let ghost start = dst@;
    push_str(dst, "--");
    push_str(dst, tag);
    push_str(dst, "@");
    push_str(dst, b.var_name.as_str());
    push_str(dst, ":");
    push_str(dst, b.label.as_str());
    assert(dst@ == start + control_head(tag@, b@));
}

/// The line that replaces control `b` in the built script.
fn render_control(b: &UiControlBlock) -> (r: Vec<char>)
    ensures
        r@ == render_block(b@),
{
    let mut r: Vec<char> = Vec::new();
    let ghost bv = b@;
    match b.kind {
        UiControlKind::Select => {
            push_control_head(&mut r, "select", b);
            push_str(&mut r, "=");
            push_str(&mut r, b.default_value.as_str());
            if let Some(UiControlMeta::Select(opts)) = &b.meta {
                let ghost base = r@;
                let ghost ov = pairs_view(opts@);
                let mut i: usize = 0;
                while i < opts.len()
                    invariant
                        i <= opts.len(),
                        ov == pairs_view(opts@),
                        r@ == base + select_options_text(ov.take(i as int)),
                    decreases opts.len() - i,
                {
                    assert(ov.take(i + 1).drop_last() == ov.take(i as int));
                    assert(ov.take(i + 1).last() == pair_view(opts@[i as int]));
                    push_str(&mut r, ",");
                    push_str(&mut r, opts[i].0.as_str());
                    push_str(&mut r, "=");
                    push_str(&mut r, opts[i].1.as_str());
                    i += 1;
                }
                assert(ov.take(opts.len() as int) == ov);
            } else {
                assert(r@ == r@ + Seq::<char>::empty());
            }
        },
        UiControlKind::Track => {
            push_control_head(&mut r, "track", b);
            if let Some(UiControlMeta::Track { min, max, step }) = &b.meta {
                push_str(&mut r, ",");
                push_str(&mut r, min.as_str());
                push_str(&mut r, ",");
                push_str(&mut r, max.as_str());
                push_str(&mut r, ",");
                push_str(&mut r, b.default_value.as_str());
                if let Some(s) = step {
                    push_str(&mut r, ",");
                    push_str(&mut r, s.as_str());
                }
            }
        },
        UiControlKind::Check => {
            push_control_head(&mut r, "check", b);
            push_str(&mut r, ",");
            push_str(&mut r, b.default_value.as_str());
        },
        UiControlKind::CheckSection => {
            push_control_head(&mut r, "checksection", b);
            push_str(&mut r, ",");
            push_str(&mut r, b.default_value.as_str());
        },
        UiControlKind::Color => {
            push_control_head(&mut r, "color", b);
            push_str(&mut r, ",");
            push_str(&mut r, b.default_value.as_str());
        },
        UiControlKind::File => {
            push_control_head(&mut r, "file", b);
        },
        UiControlKind::Folder => {
            push_control_head(&mut r, "folder", b);
        },
        UiControlKind::Font => {
            push_control_head(&mut r, "font", b);
            push_str(&mut r, ",");
            push_all(&mut r, &trim_matches(&to_chars(b.default_value.as_str()), '"'));
        },
        UiControlKind::Figure => {
            push_control_head(&mut r, "figure", b);
            push_str(&mut r, ",");
            push_all(&mut r, &trim_matches(&to_chars(b.default_value.as_str()), '"'));
        },
        UiControlKind::Text => {
            push_control_head(&mut r, "text", b);
            push_str(&mut r, ",");
            push_all(&mut r, &trim_matches(&to_chars(b.default_value.as_str()), '"'));
        },
        UiControlKind::String => {
            push_control_head(&mut r, "string", b);
            push_str(&mut r, ",");
            push_all(&mut r, &trim_matches(&to_chars(b.default_value.as_str()), '"'));
        },
        UiControlKind::Value => {
            push_control_head(&mut r, "value", b);
            push_str(&mut r, ",");
            push_str(&mut r, b.default_value.as_str());
        },
    }
    r
}


/// Lines `start..=end` of `lines` replaced by `line`.
fn splice(lines: &Vec<Vec<char>>, start: usize, end: usize, line: Vec<char>) -> (r: Vec<Vec<char>>)
    requires
        splice_ok(views_of(lines@), start as int, end as int),
    ensures
        views_of(r@) == splice_lines(views_of(lines@), start as int, end as int, line@),
{
    let ghost ls = views_of(lines@);
    let mut r: Vec<Vec<char>> = Vec::new();
    let mut i: usize = 0;
    while i < start
        invariant
            i <= start <= lines.len(),
            ls == views_of(lines@),
            views_of(r@) == ls.take(i as int),
        decreases start - i,
    {
        let ghost before = views_of(r@);
        let c = copy_range(lines[i].as_slice(), 0, lines[i].len());
        assert(c@ == ls[i as int]);
        r.push(c);
        assert(views_of(r@) == before.push(ls[i as int]));
        assert(ls.take(i + 1) == ls.take(i as int).push(ls[i as int]));
        i += 1;
    }
    let ghost head = views_of(r@);
    let ghost lv = line@;
    r.push(line);
    let mut j: usize = end + 1;
    assert(views_of(r@) == head.push(lv));
    while j < lines.len()
        invariant
            end + 1 <= j <= lines.len(),
            ls == views_of(lines@),
            views_of(r@) == head.push(lv) + ls.subrange(end + 1, j as int),
        decreases lines.len() - j,
    {
        let ghost before = views_of(r@);
        let c = copy_range(lines[j].as_slice(), 0, lines[j].len());
        assert(c@ == ls[j as int]);
        r.push(c);
        assert(views_of(r@) == before.push(ls[j as int]));
        assert(ls.subrange(end + 1, j + 1) == ls.subrange(end + 1, j as int).push(ls[j as int]));
        j += 1;
    }
    assert(views_of(r@) == splice_lines(ls, start as int, end as int, lv));
    r
}

/// `source` with each control's lines replaced by its rendered line. Controls
/// are applied from the last to the first; the caller must make sure every
/// range fits (see [`try_apply_ui_blocks`]), which holds for the controls that
/// [`parse_ui_blocks`] finds in the same source.
pub fn apply_ui_blocks(source: &str, blocks: &[UiControlBlock]) -> (r: String)
    requires
        applied_text(source@, blocks_view(blocks@)) is Some,
    ensures
        applied_text(source@, blocks_view(blocks@)) == Some(r@),
{
    match try_apply_ui_blocks(source, blocks) {
        Some(r) => r,
        None => String::new(),
    }
}

/// [`apply_ui_blocks`], or `None` when some control's range does not fit.
pub fn try_apply_ui_blocks(source: &str, blocks: &[UiControlBlock]) -> (r: Option<String>)
    ensures
        match r {
            Some(s) => applied_text(source@, blocks_view(blocks@)) == Some(s@),
            None => applied_text(source@, blocks_view(blocks@)) is None,
        },
{
    let ghost bv = blocks_view(blocks@);
    let chars = to_chars(source);
    let mut lines = split_on(&chars, '\n');
    let mut k = blocks.len();
    assert(bv.take(k as int) == bv);
    while k > 0
        invariant
            k <= blocks.len(),
            bv == blocks_view(blocks@),
            apply_blocks(split_pieces(source@, '\n'), bv) == apply_blocks(
                views_of(lines@),
                bv.take(k as int),
            ),
        decreases k,
    {
        let b = &blocks[k - 1];
        let ghost cur = views_of(lines@);
        assert(bv.take(k as int).last() == b@);
        assert(bv.take(k as int).drop_last() == bv.take(k - 1));
        if b.start_line > lines.len() || b.end_line >= lines.len() || b.start_line > b.end_line + 1 {
            return None;
        }
        let line = render_control(b);
        lines = splice(&lines, b.start_line, b.end_line, line);
        k -= 1;
    }
    Some(from_chars(&join_with(&lines, &to_chars("\n"))))
}


// ---------------------------------------------------------------------------
// Laws
// ---------------------------------------------------------------------------
/// A found control: it starts at `start`, its assignment is line `next - 1`
/// (at or after `pos`), and it ends there or on the empty line after.
pub open spec fn found_at(
    lines: Seq<Seq<char>>,
    r: (Option<BlockView>, int),
    start: int,
    pos: int,
) -> bool {
    r.0 matches Some(b) ==> b.start_line == start && pos < r.1 <= lines.len() && b.end_line
        == block_end(lines, r.1 - 1) && assignment(trimmed(lines[r.1 - 1])) == Some(
        (b.var_name, b.default_value),
    )
}

/// The comment that declares a control of kind `k`: `---$select:`, `---$track:`, ...
pub open spec fn header_prefix(k: UiControlKind) -> Seq<char> {
    match k {
        UiControlKind::Select => "---$select:"@,
        UiControlKind::Track => "---$track:"@,
        UiControlKind::Check => "---$check:"@,
        UiControlKind::CheckSection => "---$checksection:"@,
        UiControlKind::Color => "---$color:"@,
        UiControlKind::File => "---$file:"@,
        UiControlKind::Folder => "---$folder:"@,
        UiControlKind::Font => "---$font:"@,
        UiControlKind::Figure => "---$figure:"@,
        UiControlKind::Text => "---$text:"@,
        UiControlKind::String => "---$string:"@,
        UiControlKind::Value => "---$value:"@,
    }
}

/// The label a header line gives a control of kind `k`: the text after the
/// comment `---$kind:` with white space trimmed off both ends; for a track
/// bar, only the part before the first `,` (the rest are its settings),
/// trimmed.
pub open spec fn header_label(k: UiControlKind, line: Seq<char>) -> Seq<char> {
    let rest = trimmed(line).skip(header_prefix(k).len() as int);
    if k is Track {
        trimmed(split_pieces(trimmed(rest), ',')[0])
    } else {
        trimmed(rest)
    }
}

/// A control as declared in `lines`: its first line, trimmed, starts with the
/// comment for its kind, its label is [`header_label`] of that line, and a
/// later line `j` is its assignment
/// `local <var_name> = <default_value>`, the control ending at `j`, or at
/// `j + 1` when that line exists and is empty.
pub open spec fn declared_in(lines: Seq<Seq<char>>, b: BlockView) -> bool {
    &&& 0 <= b.start_line < lines.len()
    &&& has_prefix(trimmed(lines[b.start_line]), header_prefix(b.kind))
    &&& b.label == header_label(b.kind, lines[b.start_line])
    &&& exists|j: int|
        b.start_line < j < lines.len() && #[trigger] assignment(trimmed(lines[j])) == Some(
            (b.var_name, b.default_value),
        ) && b.end_line == block_end(lines, j)
}

proof fn lemma_select_found(
    lines: Seq<Seq<char>>,
    start: int,
    label: Seq<char>,
    pos: int,
    opts: Seq<(Seq<char>, Seq<char>)>,
)
    requires
        0 <= pos,
    ensures
        found_at(lines, select_from(lines, start, label, pos, opts), start, pos),
        select_from(lines, start, label, pos, opts).0 matches Some(b) ==> b.kind == UiControlKind::Select
            && b.label == trimmed(label),
    decreases lines.len() - pos,
{
    if pos < lines.len() {
        let l = trimmed(lines[pos]);
        if let Some(opt) = without_prefix(l, "---"@) {
            let o2 = match split_at_first(opt, '=') {
                Some((n, v)) => opts.push((trimmed(n), trimmed(v))),
                None => opts,
            };
            lemma_select_found(lines, start, label, pos + 1, o2);
        }
    }
}

proof fn lemma_track_found(
    lines: Seq<Seq<char>>,
    start: int,
    label: Seq<char>,
    pos: int,
    opts: TrackOpts,
)
    requires
        0 <= pos,
    ensures
        found_at(lines, track_from(lines, start, label, pos, opts), start, pos),
        track_from(lines, start, label, pos, opts).0 matches Some(b) ==> b.kind == UiControlKind::Track
            && b.label == label,
    decreases lines.len() - pos,
{
    if pos < lines.len() {
        let l = trimmed(lines[pos]);
        match track_option_line(l) {
            Some((w, v)) => {
                if let Some(o) = set_track_opt(opts, w, v) {
                    lemma_track_found(lines, start, label, pos + 1, o);
                }
            },
            None => {
                if has_prefix(l, "--"@) {
                    lemma_track_found(lines, start, label, pos + 1, opts);
                }
            },
        }
    }
}

proof fn lemma_plain_found(
    lines: Seq<Seq<char>>,
    kind: UiControlKind,
    start: int,
    label: Seq<char>,
    pos: int,
)
    requires
        0 <= pos,
    ensures
        plain_from(lines, kind, start, label, pos) matches Some(r) ==> found_at(lines, r, start, pos)
            && (r.0 matches Some(b) ==> b.kind == kind && b.label == trimmed(label)),
    decreases lines.len() - pos,
{
    if pos < lines.len() {
        if has_prefix(trimmed(lines[pos]), "--"@) {
            lemma_plain_found(lines, kind, start, label, pos + 1);
        }
    }
}

proof fn lemma_trimmed_empty(s: Seq<char>)
    requires
        s.len() == 0,
    ensures
        trimmed(s).len() == 0,
{
}

/// A line that declares a control is not empty.
proof fn lemma_header_nonempty(l: Seq<char>, p: &str)
    requires
        p@.len() > 0,
        without_prefix(trimmed(l), p@) is Some,
    ensures
        l.len() > 0,
{
    if l.len() == 0 {
        lemma_trimmed_empty(l);
    }
}

/// The control read at line `pos` starts there, its header line is not empty,
/// and it ends before the next line to read, or on that line when it is empty.
proof fn lemma_step_found(lines: Seq<Seq<char>>, pos: int)
    requires
        0 <= pos < lines.len(),
    ensures
        header_step(lines, pos) matches Some(r) ==> found_at(lines, r, pos, pos + 1) && (r.0 is Some
            ==> lines[pos].len() > 0) && (r.0 matches Some(b) ==> has_prefix(
            trimmed(lines[pos]),
            header_prefix(b.kind),
        ) && b.label == header_label(b.kind, lines[pos])),
{
    let l = trimmed(lines[pos]);
    let p = pos + 1;
    let e: Seq<(Seq<char>, Seq<char>)> = Seq::empty();
    reveal_strlit("---$select:");
    reveal_strlit("---$track:");
    reveal_strlit("---$check:");
    reveal_strlit("---$checksection:");
    reveal_strlit("---$color:");
    reveal_strlit("---$file:");
    reveal_strlit("---$folder:");
    reveal_strlit("---$font:");
    reveal_strlit("---$figure:");
    reveal_strlit("---$text:");
    reveal_strlit("---$string:");
    reveal_strlit("---$value:");
    if let Some(label) = without_prefix(l, "---$select:"@) {
        lemma_select_found(lines, pos, label, p, e);
        lemma_header_nonempty(lines[pos], "---$select:");
    } else if let Some(header) = without_prefix(l, "---$track:"@) {
        lemma_header_nonempty(lines[pos], "---$track:");
        let t = trimmed(header);
        lemma_split_on_len(t, ',');
        assert(header_parts(t)[0] == trimmed(split_pieces(t, ',')[0]));
        assert(header == l.skip(header_prefix(UiControlKind::Track).len() as int));
        if let Some((label, opts)) = track_header(header) {
            lemma_track_found(lines, pos, label, p, opts);
        }
    } else if let Some(label) = without_prefix(l, "---$check:"@) {
        lemma_plain_found(lines, UiControlKind::Check, pos, label, p);
        lemma_header_nonempty(lines[pos], "---$check:");
    } else if let Some(label) = without_prefix(l, "---$checksection:"@) {
        lemma_plain_found(lines, UiControlKind::CheckSection, pos, label, p);
        lemma_header_nonempty(lines[pos], "---$checksection:");
    } else if let Some(label) = without_prefix(l, "---$color:"@) {
        lemma_plain_found(lines, UiControlKind::Color, pos, label, p);
        lemma_header_nonempty(lines[pos], "---$color:");
    } else if let Some(label) = without_prefix(l, "---$file:"@) {
        lemma_header_nonempty(lines[pos], "---$file:");
    } else if let Some(label) = without_prefix(l, "---$folder:"@) {
        lemma_plain_found(lines, UiControlKind::Folder, pos, label, p);
        lemma_header_nonempty(lines[pos], "---$folder:");
    } else if let Some(label) = without_prefix(l, "---$font:"@) {
        lemma_plain_found(lines, UiControlKind::Font, pos, label, p);
        lemma_header_nonempty(lines[pos], "---$font:");
    } else if let Some(label) = without_prefix(l, "---$figure:"@) {
        lemma_plain_found(lines, UiControlKind::Figure, pos, label, p);
        lemma_header_nonempty(lines[pos], "---$figure:");
    } else if let Some(label) = without_prefix(l, "---$text:"@) {
        lemma_plain_found(lines, UiControlKind::Text, pos, label, p);
        lemma_header_nonempty(lines[pos], "---$text:");
    } else if let Some(label) = without_prefix(l, "---$string:"@) {
        lemma_plain_found(lines, UiControlKind::String, pos, label, p);
        lemma_header_nonempty(lines[pos], "---$string:");
    } else if let Some(label) = without_prefix(l, "---$value:"@) {
        lemma_plain_found(lines, UiControlKind::Value, pos, label, p);
        lemma_header_nonempty(lines[pos], "---$value:");
    }
}

/// Controls lying in order within the first `n` lines: each range
/// `start..=end` is inside them, and each control ends before the next starts.
pub open spec fn placed_within(bs: Seq<BlockView>, n: int) -> bool {
    &&& forall|k: int|
        0 <= k < bs.len() ==> 0 <= (#[trigger] bs[k]).start_line <= bs[k].end_line < n
    &&& forall|k: int, j: int|
        0 <= k < j < bs.len() ==> (#[trigger] bs[k]).end_line < (#[trigger] bs[j]).start_line
}

/// The controls found from line `pos` on lie in order after `pos`, and each starts on a
/// line that is not empty.
proof fn lemma_scan_placed(lines: Seq<Seq<char>>, pos: int)
    requires
        0 <= pos <= lines.len(),
        scan(lines, pos) is Some,
    ensures
        placed_within(scan(lines, pos).unwrap(), lines.len() as int),
        forall|k: int|
            0 <= k < scan(lines, pos).unwrap().len() ==> pos <= (#[trigger] scan(
                lines,
                pos,
            ).unwrap()[k]).start_line && lines[scan(lines, pos).unwrap()[k].start_line].len() > 0,
        forall|k: int|
            0 <= k < scan(lines, pos).unwrap().len() ==> declared_in(
                lines,
                #[trigger] scan(lines, pos).unwrap()[k],
            ),
    decreases lines.len() - pos,
{
    if pos < lines.len() {
        lemma_step_advances(lines, pos);
        lemma_step_found(lines, pos);
        let (b, next) = header_step(lines, pos).unwrap();
        lemma_scan_placed(lines, next);
        let rest = scan(lines, next).unwrap();
        if let Some(b) = b {
            let all = seq![b] + rest;
            assert(all == scan(lines, pos).unwrap());
            assert forall|k: int, j: int| 0 <= k < j < all.len() implies (#[trigger] all[k]).end_line
                < (#[trigger] all[j]).start_line by {
                if k == 0 {
                    assert(all[j] == rest[j - 1]);
                    assert(next <= rest[j - 1].start_line);
                } else {
                    assert(all[k] == rest[k - 1]);
                    assert(all[j] == rest[j - 1]);
                }
            }
            assert forall|k: int| 0 <= k < all.len() implies 0 <= (#[trigger] all[k]).start_line
                <= all[k].end_line < lines.len() by {
                if k > 0 {
                    assert(all[k] == rest[k - 1]);
                }
            }
            assert forall|k: int| 0 <= k < all.len() implies pos <= (#[trigger] all[k]).start_line
                && lines[all[k].start_line].len() > 0 by {
                if k > 0 {
                    assert(all[k] == rest[k - 1]);
                }
            }
            assert(assignment(trimmed(lines[next - 1])) == Some((b.var_name, b.default_value)));
            assert(declared_in(lines, b));
            assert forall|k: int| 0 <= k < all.len() implies declared_in(lines, #[trigger] all[k]) by {
                if k > 0 {
                    assert(all[k] == rest[k - 1]);
                }
            }
        }
    }
}

proof fn lemma_placed_apply(lines: Seq<Seq<char>>, bs: Seq<BlockView>, n: int)
    requires
        placed_within(bs, n),
        n <= lines.len(),
    ensures
        apply_blocks(lines, bs) is Some,
    decreases bs.len(),
{
    if bs.len() > 0 {
        let b = bs.last();
        assert(bs[bs.len() - 1] == b);
        let spliced = splice_lines(lines, b.start_line, b.end_line, render_block(b));
        let rest = bs.drop_last();
        assert forall|k: int| 0 <= k < rest.len() implies 0 <= (#[trigger] rest[k]).start_line
            <= rest[k].end_line < b.start_line + 1 by {
            assert(rest[k] == bs[k]);
        }
        assert forall|k: int, j: int| 0 <= k < j < rest.len() implies (#[trigger] rest[k]).end_line
            < (#[trigger] rest[j]).start_line by {
            assert(rest[k] == bs[k]);
            assert(rest[j] == bs[j]);
        }
        lemma_placed_apply(spliced, rest, b.start_line + 1);
    }
}

/// The controls that parsing finds in a source can always be applied to that
/// source: every range fits, so building never fails on them.
pub proof fn lemma_found_blocks_apply(source: Seq<char>)
    requires
        ui_blocks_of(source) is Some,
    ensures
        placed_within(ui_blocks_of(source).unwrap(), split_pieces(source, '\n').len() as int),
        applied_text(source, ui_blocks_of(source).unwrap()) is Some,
{
    let lines = split_pieces(source, '\n');
    lemma_scan_placed(lines, 0);
    lemma_placed_apply(lines, ui_blocks_of(source).unwrap(), lines.len() as int);
}

/// Applying no controls gives the source back unchanged.
pub proof fn lemma_apply_nothing(source: Seq<char>)
    ensures
        applied_text(source, Seq::empty()) == Some(source),
{
    crate::text_utils::lemma_join_split(source, '\n');
    assert(seq!['\n'] == "\n"@) by {
        reveal_strlit("\n");
    }
}

/// The lines from `pos` on with each control of `bs` (in order, at or after
/// `pos`) laid out from left to right: the lines before a control kept as they
/// are, its range `start..=end` replaced by its rendered line.
pub open spec fn laid_out(lines: Seq<Seq<char>>, bs: Seq<BlockView>, pos: int) -> Seq<Seq<char>>
    decreases bs.len(),
{
    if bs.len() == 0 {
        lines.skip(pos)
    } else {
        lines.subrange(pos, bs[0].start_line) + seq![render_block(bs[0])] + laid_out(
            lines,
            bs.skip(1),
            bs[0].end_line + 1,
        )
    }
}

proof fn lemma_layout_after_splice(lines: Seq<Seq<char>>, bs: Seq<BlockView>, pos: int)
    requires
        bs.len() > 0,
        0 <= pos,
        placed_within(bs, lines.len() as int),
        forall|k: int| 0 <= k < bs.len() ==> pos <= (#[trigger] bs[k]).start_line,
    ensures
        laid_out(
            splice_lines(lines, bs.last().start_line, bs.last().end_line, render_block(bs.last())),
            bs.drop_last(),
            pos,
        ) == laid_out(lines, bs, pos),
    decreases bs.len(),
{
    let b = bs.last();
    assert(bs[bs.len() - 1] == b);
    let spliced = splice_lines(lines, b.start_line, b.end_line, render_block(b));
    if bs.len() == 1 {
        assert(bs.skip(1) == Seq::<BlockView>::empty());
        assert(bs[0] == b);
        assert(bs.drop_last() == Seq::<BlockView>::empty());
        assert(spliced.skip(pos) == lines.subrange(pos, b.start_line) + seq![render_block(b)]
            + lines.skip(b.end_line + 1));
        assert(laid_out(lines, bs.skip(1), b.end_line + 1) == lines.skip(b.end_line + 1));
        assert(laid_out(spliced, bs.drop_last(), pos) == spliced.skip(pos));
    } else {
        let b0 = bs[0];
        let tail = bs.skip(1);
        assert(bs.drop_last()[0] == b0);
        assert(bs.drop_last().skip(1) == tail.drop_last());
        assert(tail.last() == b);
        assert(b0.end_line < b.start_line);
        assert(spliced.subrange(pos, b0.start_line) == lines.subrange(pos, b0.start_line));
        assert forall|k: int| 0 <= k < tail.len() implies 0 <= (#[trigger] tail[k]).start_line
            <= tail[k].end_line < lines.len() && b0.end_line + 1 <= tail[k].start_line by {
            assert(tail[k] == bs[k + 1]);
        }
        assert forall|k: int, j: int| 0 <= k < j < tail.len() implies (#[trigger] tail[k]).end_line
            < (#[trigger] tail[j]).start_line by {
            assert(tail[k] == bs[k + 1]);
            assert(tail[j] == bs[j + 1]);
        }
        lemma_layout_after_splice(lines, tail, b0.end_line + 1);
        assert(laid_out(spliced, bs.drop_last(), pos) == spliced.subrange(pos, b0.start_line) + seq![
            render_block(b0),
        ] + laid_out(spliced, tail.drop_last(), b0.end_line + 1));
    }
}

/// Applying controls that lie in order within the lines replaces each
/// control's range `start..=end` by its rendered line and keeps every other
/// line, as it is and in order (see [`laid_out`]).
pub proof fn lemma_apply_layout(lines: Seq<Seq<char>>, bs: Seq<BlockView>)
    requires
        placed_within(bs, lines.len() as int),
    ensures
        apply_blocks(lines, bs) == Some(laid_out(lines, bs, 0)),
    decreases bs.len(),
{
    if bs.len() == 0 {
        assert(lines.skip(0) == lines);
    } else {
        let b = bs.last();
        assert(bs[bs.len() - 1] == b);
        let spliced = splice_lines(lines, b.start_line, b.end_line, render_block(b));
        let rest = bs.drop_last();
        assert forall|k: int| 0 <= k < rest.len() implies 0 <= (#[trigger] rest[k]).start_line
            <= rest[k].end_line < spliced.len() by {
            assert(rest[k] == bs[k]);
        }
        assert forall|k: int, j: int| 0 <= k < j < rest.len() implies (#[trigger] rest[k]).end_line
            < (#[trigger] rest[j]).start_line by {
            assert(rest[k] == bs[k]);
            assert(rest[j] == bs[j]);
        }
        lemma_apply_layout(spliced, rest);
        lemma_layout_after_splice(lines, bs, 0);
    }
}

/// The built text of a source with the controls found in it: the lines of
/// the source with each control's range replaced by its rendered line, every
/// other line kept as it is and in order, joined with `\n`.
pub proof fn lemma_found_blocks_layout(source: Seq<char>)
    requires
        ui_blocks_of(source) is Some,
    ensures
        applied_text(source, ui_blocks_of(source).unwrap()) == Some(
            joined(laid_out(split_pieces(source, '\n'), ui_blocks_of(source).unwrap(), 0), "\n"@),
        ),
{
    lemma_found_blocks_apply(source);
    lemma_apply_layout(split_pieces(source, '\n'), ui_blocks_of(source).unwrap());
}

/// Each control that parsing finds lies in order within the source's lines
/// and is as declared there: its header line starts, once trimmed, with the
/// comment for its kind; its assignment `local <var_name> = <default_value>` is
/// a later line; and it ends on that line, or on the line after it when that
/// line exists and is empty. So each control spans at least two lines.
pub proof fn lemma_found_blocks_shape(source: Seq<char>)
    requires
        ui_blocks_of(source) is Some,
    ensures
        placed_within(ui_blocks_of(source).unwrap(), split_pieces(source, '\n').len() as int),
        forall|k: int|
            0 <= k < ui_blocks_of(source).unwrap().len() ==> declared_in(
                split_pieces(source, '\n'),
                #[trigger] ui_blocks_of(source).unwrap()[k],
            ) && ui_blocks_of(source).unwrap()[k].start_line < ui_blocks_of(source).unwrap()[k].end_line,
{
    let lines = split_pieces(source, '\n');
    let bs = ui_blocks_of(source).unwrap();
    lemma_scan_placed(lines, 0);
    assert forall|k: int| 0 <= k < bs.len() implies declared_in(lines, #[trigger] bs[k]) && bs[k].start_line
        < bs[k].end_line by {
        assert(declared_in(lines, bs[k]));
        let j = choose|j: int|
            bs[k].start_line < j < lines.len() && #[trigger] assignment(trimmed(lines[j])) == Some(
                (bs[k].var_name, bs[k].default_value),
            ) && bs[k].end_line == block_end(lines, j);
    }
}

} // verus!
