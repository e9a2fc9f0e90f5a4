use vstd::prelude::*;

use crate::config::{opt_str, ResolvedPackage, VarMap};
use crate::text_utils::{copy_range, from_chars, push_all, to_chars};

verus! {

// ---------------------------------------------------------------------------
// Variables in script sources
// ---------------------------------------------------------------------------
/// A character allowed in variable names: `A-Z`, `a-z`, `0-9` or `_`.
pub open spec fn is_var_char(c: char) -> bool {
    let n = c as int;
    ||| 65 <= n <= 90
    ||| 97 <= n <= 122
    ||| 48 <= n <= 57
    ||| n == 95
}

/// Number of variable-name characters from index `i` on.
pub open spec fn var_run(s: Seq<char>, i: int) -> nat
    decreases s.len() - i,
{
    if 0 <= i < s.len() && is_var_char(s[i]) {
        1 + var_run(s, i + 1)
    } else {
        0
    }
}

/// Length of a reference `${NAME}` at the start of `s` (0 when there is none).
pub open spec fn reference_len(s: Seq<char>) -> nat {
    let n = var_run(s, 2);
    if s.len() >= 2 && s[0] == '$' && s[1] == '{' && n > 0 && 2 + n < s.len() && s[(2 + n) as int] == '}' {
        n + 3
    } else {
        0
    }
}

/// `s` with each `${NAME}` replaced by the value of `NAME`; references to
/// undefined variables are kept as they are and listed, in order.
pub open spec fn expanded(s: Seq<char>, vars: Map<Seq<char>, Seq<char>>) -> (Seq<char>, Seq<Seq<char>>)
    decreases s.len(),
{
    if s.len() == 0 {
        (Seq::empty(), Seq::empty())
    } else if reference_len(s) > 0 {
        let k = reference_len(s) as int;
        let name = s.subrange(2, k - 1);
        let rest = expanded(s.skip(k), vars);
        if vars.dom().contains(name) {
            (vars[name] + rest.0, rest.1)
        } else {
            (s.take(k) + rest.0, seq![name] + rest.1)
        }
    } else {
        let rest = expanded(s.drop_first(), vars);
        (seq![s[0]] + rest.0, rest.1)
    }
}

/// A text without `${` has nothing to expand: it comes out unchanged, with no
/// undefined variables.
pub proof fn lemma_no_reference_unchanged(s: Seq<char>, vars: Map<Seq<char>, Seq<char>>)
    requires
        forall|i: int| 0 <= i < s.len() && #[trigger] s[i] == '$' ==> i + 1 >= s.len() || s[i + 1] != '{',
    ensures
        expanded(s, vars) == (s, Seq::<Seq<char>>::empty()),
    decreases s.len(),
{
    if s.len() > 0 {
        let t = s.drop_first();
        assert forall|i: int| 0 <= i < t.len() && #[trigger] t[i] == '$' implies i + 1 >= t.len() || t[i + 1] != '{' by {
            assert(t[i] == s[i + 1]);
            if i + 1 < t.len() {
                assert(t[i + 1] == s[i + 2]);
            }
        }
        if s.len() >= 2 && s[0] == '$' {
            assert(s[1] != '{');
        }
        lemma_no_reference_unchanged(t, vars);
        assert(reference_len(s) == 0);
        assert(s == seq![s[0]] + t);
    }
}

fn is_var_char_exec(c: char) -> (r: bool)
    ensures
        r == is_var_char(c),
{
    let n = c as u32;
    (65 <= n && n <= 90) || (97 <= n && n <= 122) || (48 <= n && n <= 57) || n == 95
}

/// Length of a reference `${NAME}` at index `i` of `s` (0 when there is none).
fn reference_len_at(s: &[char], i: usize) -> (r: usize)
    requires
        i <= s.len(),
    ensures
        r == reference_len(s@.skip(i as int)),
        r == 0 || i + r <= s.len(),
{
    let ghost t = s@.skip(i as int);
    if !(s.len() >= 2 && i <= s.len() - 2 && s[i] == '$' && s[i + 1] == '{') {
        return 0;
    }
    let mut j = i + 2;
    while j < s.len() && is_var_char_exec(s[j])
        invariant
            i + 2 <= j <= s.len(),
            t == s@.skip(i as int),
            var_run(t, 2) == (j - i - 2) + var_run(t, j - i),
        decreases s.len() - j,
    {
        assert(t[j - i] == s@[j as int]);
        j += 1;
    }
    if j < s.len() {
        assert(t[j - i] == s@[j as int]);
    }
    let n = j - i - 2;
    if n > 0 && j < s.len() && s[j] == '}' {
        n + 3
    } else {
        0
    }
}

/// Expands `${NAME}` references (see [`expanded`]): the text, and the names
/// of undefined variables met, in order.
pub fn expand_variables(content: &str, vars: &VarMap) -> (r: (String, Vec<String>))
    ensures
        (r.0@, r.1@.map_values(|n: String| n@)) == expanded(content@, vars@),
{
    let s = to_chars(content);
    let mut out: Vec<char> = Vec::new();
    let mut undefined: Vec<String> = Vec::new();
    let mut i: usize = 0;
    assert(s@.skip(0) == s@);
    assert(undefined@.map_values(|n: String| n@) == Seq::<Seq<char>>::empty());
    while i < s.len()
        invariant
            i <= s.len(),
            s@ == content@,
            expanded(content@, vars@) == (
                out@ + expanded(s@.skip(i as int), vars@).0,
                undefined@.map_values(|n: String| n@) + expanded(s@.skip(i as int), vars@).1,
            ),
        decreases s.len() - i,
    {
        let ghost rest = s@.skip(i as int);
        let ghost out0 = out@;
        let ghost und0 = undefined@.map_values(|n: String| n@);
        let k = reference_len_at(&s, i);
        if k > 0 {
            let name_chars = copy_range(&s, i + 2, i + k - 1);
            assert(name_chars@ == rest.subrange(2, k - 1));
            assert(rest.skip(k as int) == s@.skip(i + k));
            let name = from_chars(&name_chars);
            match vars.get(name.as_str()) {
                Some(v) => {
                    push_all(&mut out, &to_chars(v.as_str()));
                },
                None => {
                    let whole = copy_range(&s, i, i + k);
                    assert(whole@ == rest.take(k as int));
                    push_all(&mut out, &whole);
                    undefined.push(name);
                    assert(undefined@.map_values(|n: String| n@) == und0.push(name_chars@));
                },
            }
            proof {
                let tail = expanded(s@.skip(i + k), vars@);
                assert(und0 + (seq![name_chars@] + tail.1) == und0.push(name_chars@) + tail.1);
                assert(out0 + (rest.take(k as int) + tail.0) == (out0 + rest.take(k as int)) + tail.0);
                assert(out0 + (vars@[name_chars@] + tail.0) == (out0 + vars@[name_chars@]) + tail.0);
            }
            i = i + k;
        } else {
            out.push(s[i]);
            assert(rest.drop_first() == s@.skip(i + 1));
            proof {
                let tail = expanded(s@.skip(i + 1), vars@);
                assert(out0 + (seq![rest[0]] + tail.0) == out0.push(s@[i as int]) + tail.0);
            }
            i += 1;
        }
    }
    assert(s@.skip(s.len() as int) == Seq::<char>::empty());
    assert(out@ + Seq::<char>::empty() == out@);
    assert(undefined@.map_values(|n: String| n@) + Seq::<Seq<char>>::empty() == undefined@.map_values(
        |n: String| n@,
    ));
    (from_chars(&out), undefined)
}

/// The built-in variables of the package: `PACKAGE_ID`, `PACKAGE_NAME` and
/// `PACKAGE_VERSION`, for the settings that are given.
pub open spec fn package_builtins(p: Option<ResolvedPackage>) -> Map<Seq<char>, Seq<char>> {
    match p {
        None => Map::empty(),
        Some(p) => {
            let m0 = Map::<Seq<char>, Seq<char>>::empty();
            let m1 = match opt_str(p.id) {
                Some(v) => m0.insert("PACKAGE_ID"@, v),
                None => m0,
            };
            let m2 = match opt_str(p.name) {
                Some(v) => m1.insert("PACKAGE_NAME"@, v),
                None => m1,
            };
            match opt_str(p.version) {
                Some(v) => m2.insert("PACKAGE_VERSION"@, v),
                None => m2,
            }
        },
    }
}

/// The variables of one script source: the built-in package variables, then
/// the project's variables, then the source's own, later ones winning.
pub fn source_variables(
    package: &Option<ResolvedPackage>,
    project: &VarMap,
    source: &VarMap,
) -> (r: VarMap)
    ensures
        r@ == package_builtins(*package).union_prefer_right(project@).union_prefer_right(source@),
{
    let mut vars = VarMap::new();
    if let Some(p) = package {
        if let Some(v) = &p.id {
            vars.insert(String::from_str("PACKAGE_ID"), v.clone());
        }
        if let Some(v) = &p.name {
            vars.insert(String::from_str("PACKAGE_NAME"), v.clone());
        }
        if let Some(v) = &p.version {
            vars.insert(String::from_str("PACKAGE_VERSION"), v.clone());
        }
    }
    vars.extend_from(project);
    vars.extend_from(source);
    vars
}

/// The value a variable of a script source takes: the source's own value;
/// else the project's; else, for `PACKAGE_ID`, `PACKAGE_NAME` and
/// `PACKAGE_VERSION`, the package's id, name and version when they are set.
/// Any other variable is undefined.
pub proof fn lemma_source_variable_value(
    package: Option<ResolvedPackage>,
    project: Map<Seq<char>, Seq<char>>,
    source: Map<Seq<char>, Seq<char>>,
    name: Seq<char>,
)
    ensures
        ({
            let m = package_builtins(package).union_prefer_right(project).union_prefer_right(source);
            let builtin: Option<Seq<char>> = match package {
                None => None,
                Some(p) => if name == "PACKAGE_ID"@ {
                    opt_str(p.id)
                } else if name == "PACKAGE_NAME"@ {
                    opt_str(p.name)
                } else if name == "PACKAGE_VERSION"@ {
                    opt_str(p.version)
                } else {
                    None
                },
            };
            &&& source.dom().contains(name) ==> m.dom().contains(name) && m[name] == source[name]
            &&& !source.dom().contains(name) && project.dom().contains(name) ==> m.dom().contains(name)
                && m[name] == project[name]
            &&& !source.dom().contains(name) && !project.dom().contains(name) ==> match builtin {
                Some(v) => m.dom().contains(name) && m[name] == v,
                None => !m.dom().contains(name),
            }
        }),
{
    reveal_strlit("PACKAGE_ID");
    reveal_strlit("PACKAGE_NAME");
    reveal_strlit("PACKAGE_VERSION");
    assert("PACKAGE_ID"@ != "PACKAGE_NAME"@) by {
        assert("PACKAGE_ID"@[8] != "PACKAGE_NAME"@[8]);
    }
    assert("PACKAGE_ID"@ != "PACKAGE_VERSION"@) by {
        assert("PACKAGE_ID"@[8] != "PACKAGE_VERSION"@[8]);
    }
    assert("PACKAGE_NAME"@ != "PACKAGE_VERSION"@);
}

// ---------------------------------------------------------------------------
// Concatenation
// ---------------------------------------------------------------------------
/// The script made of its built sources, in order: each is preceded by
/// `@label` and a line break when it has a label, and followed by a line break.
pub open spec fn concatenated(parts: Seq<(Option<Seq<char>>, Seq<char>)>) -> Seq<char>
    decreases parts.len(),
{
    if parts.len() == 0 {
        Seq::empty()
    } else {
        let (label, text) = parts.last();
        concatenated(parts.drop_last()) + match label {
            Some(l) => "@"@ + l + "\n"@,
            None => Seq::empty(),
        } + text + "\n"@
    }
}

pub open spec fn part_view(p: (Option<String>, String)) -> (Option<Seq<char>>, Seq<char>) {
    (opt_str(p.0), p.1@)
}

/// Concatenates the built sources of a script (see [`concatenated`]).
pub fn concat_sources(parts: &[(Option<String>, String)]) -> (r: String)
    ensures
        r@ == concatenated(parts@.map_values(|p: (Option<String>, String)| part_view(p))),
{
    let ghost ps = parts@.map_values(|p: (Option<String>, String)| part_view(p));
    let mut out: Vec<char> = Vec::new();
    let mut i: usize = 0;
    while i < parts.len()
        invariant
            i <= parts.len(),
            ps == parts@.map_values(|p: (Option<String>, String)| part_view(p)),
            out@ == concatenated(ps.take(i as int)),
        decreases parts.len() - i,
    {
        assert(ps.take(i + 1).drop_last() == ps.take(i as int));
        assert(ps.take(i + 1).last() == part_view(parts@[i as int]));
        let ghost before = out@;
        if let Some(label) = &parts[i].0 {
            push_all(&mut out, &to_chars("@"));
            push_all(&mut out, &to_chars(label.as_str()));
            push_all(&mut out, &to_chars("\n"));
        }
        push_all(&mut out, &to_chars(parts[i].1.as_str()));
        push_all(&mut out, &to_chars("\n"));
        i += 1;
    }
    assert(ps.take(parts.len() as int) == ps);
    from_chars(&out)
}

} // verus!
