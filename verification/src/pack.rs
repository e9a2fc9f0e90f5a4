use vstd::prelude::*;

use crate::config::{PackConfig, ResolvedPackageAsset};
use crate::text_utils::{
    chars_eq, from_chars, has_prefix, joined, newlines_normalized, push_all, replace_all, replaced, split_on,
    split_pieces, starts_with, to_chars, trim, trimmed, views_of, first_index_of, find_char,
};

verus! {

// ---------------------------------------------------------------------------
// package.ini and package.txt
// ---------------------------------------------------------------------------
/// The contents of `package.ini`, with CRLF line endings. The line
/// `uninstall_sub_folder_file=1` asks that files in sub folders be removed on
/// uninstall; it is written only when that is wanted.
pub open spec fn package_ini_text(
    id: Seq<char>,
    name: Seq<char>,
    information: Seq<char>,
    uninstall_sub_folder_file: bool,
) -> Seq<char> {
    "[package]\r\nid="@ + id + "\r\nname="@ + name + "\r\ninformation="@ + information + "\r\n"@
        + if uninstall_sub_folder_file {
        "uninstall_sub_folder_file=1\r\n"@
    } else {
        Seq::empty()
    }
}

/// The contents of `package.ini` for `pack`.
pub fn render_package_ini(pack: &PackConfig) -> (r: String)
    ensures
        r@ == package_ini_text(pack.id@, pack.name@, pack.information@, pack.uninstall_sub_folder_file),
{
    let mut out: Vec<char> = Vec::new();
    push_all(&mut out, &to_chars("[package]\r\nid="));
    push_all(&mut out, &to_chars(pack.id.as_str()));
    push_all(&mut out, &to_chars("\r\nname="));
    push_all(&mut out, &to_chars(pack.name.as_str()));
    push_all(&mut out, &to_chars("\r\ninformation="));
    push_all(&mut out, &to_chars(pack.information.as_str()));
    push_all(&mut out, &to_chars("\r\n"));
    if pack.uninstall_sub_folder_file {
        push_all(&mut out, &to_chars("uninstall_sub_folder_file=1\r\n"));
    }
    from_chars(&out)
}

/// `s` with every line ending (`\r\n`, a lone `\n` or a lone `\r`) written as `\r\n`.
pub open spec fn crlf_text(s: Seq<char>) -> Seq<char>
    decreases s.len(),
{
    if s.len() == 0 {
        Seq::empty()
    } else if s[0] == '\r' {
        if s.len() > 1 && s[1] == '\n' {
            seq!['\r', '\n'] + crlf_text(s.skip(2))
        } else {
            seq!['\r', '\n'] + crlf_text(s.skip(1))
        }
    } else if s[0] == '\n' {
        seq!['\r', '\n'] + crlf_text(s.skip(1))
    } else {
        seq![s[0]] + crlf_text(s.skip(1))
    }
}

/// `input` with every line ending written as `\r\n`.
pub fn to_crlf(input: &str) -> (r: String)
    ensures
        r@ == crlf_text(input@),
{
    let s = to_chars(input);
    let mut out: Vec<char> = Vec::new();
    let mut i: usize = 0;
    assert(s@.skip(0) == s@);
    while i < s.len()
        invariant
            i <= s.len(),
            s@ == input@,
            out@ + crlf_text(s@.skip(i as int)) == crlf_text(input@),
        decreases s.len() - i,
    {
        let ghost rest = s@.skip(i as int);
        let ghost before = out@;
        let c = s[i];
        assert(rest[0] == c);
        if c == '\r' {
            out.push('\r');
            out.push('\n');
            if i + 1 < s.len() && s[i + 1] == '\n' {
                assert(rest.skip(2) == s@.skip(i + 2));
                assert(rest[1] == s@[i + 1]);
                i += 2;
            } else {
                assert(rest.skip(1) == s@.skip(i + 1));
                i += 1;
            }
        } else if c == '\n' {
            out.push('\r');
            out.push('\n');
            assert(rest.skip(1) == s@.skip(i + 1));
            i += 1;
        } else {
            out.push(c);
            assert(rest.skip(1) == s@.skip(i + 1));
            i += 1;
        }
        assert(out@ + crlf_text(s@.skip(i as int)) == before + crlf_text(rest));
    }
    assert(s@.skip(s.len() as int) == Seq::<char>::empty());
    assert(out@ + Seq::<char>::empty() == out@);
    from_chars(&out)
}


// ---------------------------------------------------------------------------
// Paths inside the package
// ---------------------------------------------------------------------------
/// Why a path cannot be used inside the package.
#[derive(Debug, Clone, Copy, PartialEq, Eq, Structural)]
pub enum ArchivePathError {
    /// The path is empty or blank.
    Empty,
    /// The path starts with `/` (or `\`).
    Absolute,
    /// The path has an empty component (`a//b`, or a trailing `/`).
    EmptyComponent,
    /// The path has a `.` component.
    CurrentDir,
    /// The path has a `..` component.
    ParentDir,
    /// A component holds `:`, as a drive letter does.
    DriveLetter,
    /// The path is `package.ini` or `package.txt`, which the package itself uses.
    Reserved,
    /// The first directory is not one that packages may install into.
    UnknownRoot,
    /// The path was already added to the package.
    Duplicate,
}

/// `p` with each `\` written as `/`.
pub open spec fn slashed(p: Seq<char>) -> Seq<char> {
    replaced(p, seq!['\\'], seq!['/'])
}

/// What is wrong with one component of a path, if anything.
pub open spec fn component_error(c: Seq<char>) -> Option<ArchivePathError> {
    if c.len() == 0 {
        Some(ArchivePathError::EmptyComponent)
    } else if c == "."@ {
        Some(ArchivePathError::CurrentDir)
    } else if c == ".."@ {
        Some(ArchivePathError::ParentDir)
    } else if first_index_of(c, ':') is Some {
        Some(ArchivePathError::DriveLetter)
    } else {
        None
    }
}

/// The problem of the first bad component among `cs[i..]`.
pub open spec fn first_component_error(cs: Seq<Seq<char>>, i: int) -> Option<ArchivePathError>
    decreases cs.len() - i,
{
    if i < 0 || i >= cs.len() {
        None
    } else {
        match component_error(cs[i]) {
            Some(e) => Some(e),
            None => first_component_error(cs, i + 1),
        }
    }
}

/// A path inside the package, with `/` separators, or why it cannot be one.
pub open spec fn normalized_archive_path(p: Seq<char>) -> Result<Seq<char>, ArchivePathError> {
    let q = slashed(p);
    if trimmed(q).len() == 0 {
        Err(ArchivePathError::Empty)
    } else if has_prefix(q, "/"@) {
        Err(ArchivePathError::Absolute)
    } else {
        match first_component_error(split_pieces(q, '/'), 0) {
            Some(e) => Err(e),
            None => Ok(q),
        }
    }
}

/// Checks a path inside the package and writes it with `/` separators.
pub fn normalize_archive_path(path: &str) -> (r: Result<String, ArchivePathError>)
    ensures
        match r {
            Ok(s) => normalized_archive_path(path@) == Ok::<Seq<char>, ArchivePathError>(s@),
            Err(e) => normalized_archive_path(path@) == Err::<Seq<char>, ArchivePathError>(e),
        },
{
    let backslash = to_chars("\\");
    let slash = to_chars("/");
    proof {
        reveal_strlit("\\");
        reveal_strlit("/");
    }
    assert(backslash@ == seq!['\\']);
    assert(slash@ == seq!['/']);
    let q = replace_all(&to_chars(path), &backslash, &slash);
    if trim(&q).len() == 0 {
        return Err(ArchivePathError::Empty);
    }
    if starts_with(&q, &slash) {
        return Err(ArchivePathError::Absolute);
    }
    let parts = split_on(&q, '/');
    let ghost cs = views_of(parts@);
    let dot = to_chars(".");
    let dotdot = to_chars("..");
    let mut i: usize = 0;
    while i < parts.len()
        invariant
            i <= parts.len(),
            cs == views_of(parts@),
            cs == split_pieces(q@, '/'),
            dot@ == "."@,
            dotdot@ == ".."@,
            first_component_error(cs, 0) == first_component_error(cs, i as int),
            normalized_archive_path(path@) == match first_component_error(cs, 0) {
                Some(e) => Err(e),
                None => Ok::<Seq<char>, ArchivePathError>(q@),
            },
        decreases parts.len() - i,
    {
        let part = parts[i].as_slice();
        if part.len() == 0 {
            return Err(ArchivePathError::EmptyComponent);
        }
        if chars_eq(part, &dot) {
            return Err(ArchivePathError::CurrentDir);
        }
        if chars_eq(part, &dotdot) {
            return Err(ArchivePathError::ParentDir);
        }
        if find_char(part, ':').is_some() {
            return Err(ArchivePathError::DriveLetter);
        }
        i += 1;
    }
    Ok(from_chars(&q))
}

/// The directories at the top of a package that it may install into.
pub open spec fn is_install_root(c: Seq<char>) -> bool {
    ||| c == "Plugin"@
    ||| c == "Script"@
    ||| c == "Language"@
    ||| c == "Alias"@
    ||| c == "Figure"@
    ||| c == "Transition"@
    ||| c == "Preset"@
    ||| c == "Default"@
}

/// Whether a path may receive a script or an asset: it is a valid package
/// path, not `package.ini` or `package.txt`, and under an install directory.
pub open spec fn install_path_check(p: Seq<char>) -> Result<(), ArchivePathError> {
    match normalized_archive_path(p) {
        Err(e) => Err(e),
        Ok(q) => if q == "package.ini"@ || q == "package.txt"@ {
            Err(ArchivePathError::Reserved)
        } else if !is_install_root(split_pieces(q, '/')[0]) {
            Err(ArchivePathError::UnknownRoot)
        } else {
            Ok(())
        },
    }
}

fn is_install_root_dir(c: &[char]) -> (r: bool)
    ensures
        r == is_install_root(c@),
{
    chars_eq(c, &to_chars("Plugin")) || chars_eq(c, &to_chars("Script")) || chars_eq(
        c,
        &to_chars("Language"),
    ) || chars_eq(c, &to_chars("Alias")) || chars_eq(c, &to_chars("Figure")) || chars_eq(
        c,
        &to_chars("Transition"),
    ) || chars_eq(c, &to_chars("Preset")) || chars_eq(c, &to_chars("Default"))
}

/// Checks that a path may receive a script or an asset (see [`install_path_check`]).
pub fn validate_install_archive_path(path: &str) -> (r: Result<(), ArchivePathError>)
    ensures
        r == install_path_check(path@),
{
    let normalized = match normalize_archive_path(path) {
        Ok(s) => s,
        Err(e) => {
            return Err(e);
        },
    };
    let n = to_chars(normalized.as_str());
    if chars_eq(&n, &to_chars("package.ini")) || chars_eq(&n, &to_chars("package.txt")) {
        return Err(ArchivePathError::Reserved);
    }
    let parts = split_on(&n, '/');
    proof {
        crate::text_utils::lemma_split_on_len(n@, '/');
    }
    if !is_install_root_dir(parts[0].as_slice()) {
        return Err(ArchivePathError::UnknownRoot);
    }
    Ok(())
}

/// The non-empty parts, in order.
pub open spec fn nonempty_parts(ps: Seq<Seq<char>>) -> Seq<Seq<char>>
    decreases ps.len(),
{
    if ps.len() == 0 {
        Seq::empty()
    } else if ps.last().len() == 0 {
        nonempty_parts(ps.drop_last())
    } else {
        nonempty_parts(ps.drop_last()).push(ps.last())
    }
}

pub open spec fn strs_view(ps: Seq<&str>) -> Seq<Seq<char>> {
    ps.map_values(|p: &str| p@)
}

/// The non-empty parts joined with `/`, checked as a package path.
pub fn join_archive_paths(parts: &[&str]) -> (r: Result<String, ArchivePathError>)
    ensures
        match r {
            Ok(s) => normalized_archive_path(joined(nonempty_parts(strs_view(parts@)), "/"@))
                == Ok::<Seq<char>, ArchivePathError>(s@),
            Err(e) => normalized_archive_path(joined(nonempty_parts(strs_view(parts@)), "/"@))
                == Err::<Seq<char>, ArchivePathError>(e),
        },
{
    let ghost ps = strs_view(parts@);
    let slash = to_chars("/");
    let mut out: Vec<char> = Vec::new();
    let mut i: usize = 0;
    assert(ps.take(0) == Seq::<Seq<char>>::empty());
    while i < parts.len()
        invariant
            i <= parts.len(),
            ps == strs_view(parts@),
            slash@ == "/"@,
            out@ == joined(nonempty_parts(ps.take(i as int)), "/"@),
            (out@.len() == 0) == (nonempty_parts(ps.take(i as int)).len() == 0),
        decreases parts.len() - i,
    {
        let part = to_chars(parts[i]);
        assert(ps.take(i + 1).drop_last() == ps.take(i as int));
        assert(ps.take(i + 1).last() == part@);
        if part.len() > 0 {
            let ghost before = nonempty_parts(ps.take(i as int));
            if out.len() > 0 {
                push_all(&mut out, &slash);
            }
            push_all(&mut out, &part);
            assert(before.push(part@).drop_last() == before);
        }
        i += 1;
    }
    assert(ps.take(parts.len() as int) == ps);
    normalize_archive_path(from_chars(&out).as_str())
}

pub open spec fn strings_view(v: Seq<String>) -> Seq<Seq<char>> {
    v.map_values(|s: String| s@)
}

/// Adding `path` to the paths already in the package: the paths afterwards,
/// and whether the addition is accepted. A path already there is refused.
pub open spec fn added_path(seen: Seq<Seq<char>>, path: Seq<char>) -> (Seq<Seq<char>>, Result<(), ArchivePathError>) {
    if seen.contains(path) {
        (seen, Err(ArchivePathError::Duplicate))
    } else {
        (seen.push(path), Ok(()))
    }
}

/// Records that `archive_path` is added to the package; refuses a path that
/// was added before.
pub fn ensure_unique_archive_path(seen_paths: &mut Vec<String>, archive_path: &str) -> (r: Result<
    (),
    ArchivePathError,
>)
    ensures
        (strings_view(final(seen_paths)@), r) == added_path(strings_view(old(seen_paths)@), archive_path@),
{
    let path = String::from_str(archive_path);
    let ghost sv = strings_view(seen_paths@);
    let mut i: usize = 0;
    while i < seen_paths.len()
        invariant
            i <= seen_paths.len(),
            sv == strings_view(seen_paths@),
            path@ == archive_path@,
            forall|j: int| 0 <= j < i ==> sv[j] != archive_path@,
        decreases seen_paths.len() - i,
    {
        if seen_paths[i] == path {
            assert(sv[i as int] == archive_path@);
            return Err(ArchivePathError::Duplicate);
        }
        i += 1;
    }
    assert(!sv.contains(archive_path@));
    seen_paths.push(path);
    assert(strings_view(seen_paths@) == sv.push(archive_path@));
    Ok(())
}

// ---------------------------------------------------------------------------
// What goes into the package
// ---------------------------------------------------------------------------
/// Where an entry of the package comes from.
#[derive(Debug, Clone, Copy, PartialEq, Eq, Structural)]
pub enum PackEntrySource {
    /// `package.ini`, made from the package settings.
    PackageIni,
    /// `package.txt`, the package message.
    PackageTxt,
    /// The built script with this index.
    Script(usize),
    /// The package asset with this index.
    Asset(usize),
}

/// A path in the package that a script or an asset may take, or why it cannot.
pub open spec fn install_entry_path(p: Result<Seq<char>, ArchivePathError>) -> Result<Seq<char>, ArchivePathError> {
    match p {
        Err(e) => Err(e),
        Ok(q) => match install_path_check(q) {
            Err(e) => Err(e),
            Ok(_) => Ok(q),
        },
    }
}

/// The path of the built script `name`: `Script/<sub>/<name>`, empty parts left out.
pub open spec fn script_entry_path(sub: Seq<char>, name: Seq<char>) -> Result<Seq<char>, ArchivePathError> {
    install_entry_path(normalized_archive_path(joined(nonempty_parts(seq!["Script"@, sub, name]), "/"@)))
}

/// The path of an asset whose destination is `dest`.
pub open spec fn asset_entry_path(dest: Seq<char>) -> Result<Seq<char>, ArchivePathError> {
    install_entry_path(normalized_archive_path(dest))
}

/// An entry that is to go into the package: its path, or why it has none, and its source.
pub type PackCandidate = (Result<Seq<char>, ArchivePathError>, PackEntrySource);

/// An entry of the package: its path and its source.
pub type PackEntry = (Seq<char>, PackEntrySource);

/// The fixed entries at the head of a package: `package.ini`, then
/// `package.txt` when there is a message.
pub open spec fn head_candidates(has_message: bool) -> Seq<PackCandidate> {
    let ini = seq![(Ok::<Seq<char>, ArchivePathError>("package.ini"@), PackEntrySource::PackageIni)];
    if has_message {
        ini.push((Ok::<Seq<char>, ArchivePathError>("package.txt"@), PackEntrySource::PackageTxt))
    } else {
        ini
    }
}

/// One entry per built script, in order, under `Script/<sub>/`.
pub open spec fn script_candidates(sub: Seq<char>, names: Seq<Seq<char>>) -> Seq<PackCandidate> {
    Seq::new(names.len(), |i: int| (script_entry_path(sub, names[i]), PackEntrySource::Script(i as usize)))
}

/// One entry per asset, in order, at its destination.
pub open spec fn asset_candidates(assets: Seq<ResolvedPackageAsset>) -> Seq<PackCandidate> {
    Seq::new(assets.len(), |k: int| (asset_entry_path(assets[k].dest@), PackEntrySource::Asset(k as usize)))
}

/// The entries of the package for `pack` whose built scripts are named
/// `names`, in the order they are added.
pub open spec fn package_candidates(pack: PackConfig, names: Seq<Seq<char>>) -> Seq<PackCandidate> {
    head_candidates(pack.message is Some) + script_candidates(pack.script_sub_dir@, names)
        + asset_candidates(pack.assets@)
}

pub open spec fn entry_paths(es: Seq<PackEntry>) -> Seq<Seq<char>> {
    es.map_values(|e: PackEntry| e.0)
}

/// Adding one entry to those accepted so far: the entries afterwards, and
/// the entry's source with the reason when it is refused.
pub open spec fn plan_step(es: Seq<PackEntry>, c: PackCandidate) -> (Seq<PackEntry>, Option<(PackEntrySource, ArchivePathError)>) {
    match c.0 {
        Err(e) => (es, Some((c.1, e))),
        Ok(p) => if entry_paths(es).contains(p) {
            (es, Some((c.1, ArchivePathError::Duplicate)))
        } else {
            (es.push((p, c.1)), None)
        },
    }
}

/// Adding the entries in order until one is refused: the entries accepted,
/// and the first refusal if there is one.
pub open spec fn planned(cs: Seq<PackCandidate>) -> (Seq<PackEntry>, Option<(PackEntrySource, ArchivePathError)>)
    decreases cs.len(),
{
    if cs.len() == 0 {
        (Seq::empty(), None)
    } else {
        let prev = planned(cs.drop_last());
        if prev.1 is Some {
            prev
        } else {
            plan_step(prev.0, cs.last())
        }
    }
}

/// The entries of the package in order, or why it cannot be made.
pub open spec fn package_plan(pack: PackConfig, names: Seq<Seq<char>>) -> Result<Seq<PackEntry>, ArchivePathError> {
    match planned(package_candidates(pack, names)) {
        (es, None) => Ok(es),
        (_, Some((_, e))) => Err(e),
    }
}

/// The entries of a package that are accepted in order, and the first entry
/// refused with the reason, if any.
#[derive(Debug)]
pub struct PackagePlan {
    pub entries: Vec<(String, PackEntrySource)>,
    pub failure: Option<(PackEntrySource, ArchivePathError)>,
}

pub open spec fn entries_view(v: Seq<(String, PackEntrySource)>) -> Seq<PackEntry> {
    v.map_values(|e: (String, PackEntrySource)| (e.0@, e.1))
}

pub open spec fn path_result_view(r: Result<String, ArchivePathError>) -> Result<Seq<char>, ArchivePathError> {
    match r {
        Ok(s) => Ok(s@),
        Err(e) => Err(e),
    }
}

pub open spec fn candidates_view(v: Seq<(Result<String, ArchivePathError>, PackEntrySource)>) -> Seq<PackCandidate> {
    v.map_values(|c: (Result<String, ArchivePathError>, PackEntrySource)| (path_result_view(c.0), c.1))
}

/// What a plan says of the package: its entries, or why it cannot be made.
pub open spec fn plan_outcome(plan: PackagePlan) -> Result<Seq<PackEntry>, ArchivePathError> {
    match plan.failure {
        None => Ok(entries_view(plan.entries@)),
        Some((_, e)) => Err(e),
    }
}

fn script_entry(sub: &str, name: &str) -> (r: Result<String, ArchivePathError>)
    ensures
        path_result_view(r) == script_entry_path(sub@, name@),
{
    let parts: Vec<&str> = vec!["Script", sub, name];
    assert(strs_view(parts@) == seq!["Script"@, sub@, name@]);
    let joined_path = match join_archive_paths(parts.as_slice()) {
        Ok(p) => p,
        Err(e) => {
            return Err(e);
        },
    };
    match validate_install_archive_path(joined_path.as_str()) {
        Ok(()) => Ok(joined_path),
        Err(e) => Err(e),
    }
}

fn asset_entry(dest: &str) -> (r: Result<String, ArchivePathError>)
    ensures
        path_result_view(r) == asset_entry_path(dest@),
{
    let normalized = match normalize_archive_path(dest) {
        Ok(p) => p,
        Err(e) => {
            return Err(e);
        },
    };
    match validate_install_archive_path(normalized.as_str()) {
        Ok(()) => Ok(normalized),
        Err(e) => Err(e),
    }
}

/// The entries of the package for `pack`, whose built scripts are named
/// `script_names`, each with its path: `package.ini`; `package.txt` when there
/// is a message; each script at `Script/<script_sub_dir>/<name>`; each asset at
/// its destination. A script or asset path must pass
/// [`validate_install_archive_path`], and no path may occur twice. The plan
/// holds the entries accepted before the first refusal, and that refusal.
pub fn plan_package_entries(pack: &PackConfig, script_names: &[String]) -> (r: PackagePlan)
    ensures
        (entries_view(r.entries@), r.failure) == planned(package_candidates(*pack, strings_view(script_names@))),
        plan_outcome(r) == package_plan(*pack, strings_view(script_names@)),
{
    let ghost names = strings_view(script_names@);
    let ghost heads = head_candidates(pack.message is Some);
    let ghost scripts = script_candidates(pack.script_sub_dir@, names);
    let ghost assets = asset_candidates(pack.assets@);
    let mut cands: Vec<(Result<String, ArchivePathError>, PackEntrySource)> = Vec::new();
    cands.push((Ok(String::from_str("package.ini")), PackEntrySource::PackageIni));
    if pack.message.is_some() {
        cands.push((Ok(String::from_str("package.txt")), PackEntrySource::PackageTxt));
    }
    assert(candidates_view(cands@) == heads);
    let mut i: usize = 0;
    while i < script_names.len()
        invariant
            i <= script_names.len(),
            names == strings_view(script_names@),
            scripts == script_candidates(pack.script_sub_dir@, names),
            candidates_view(cands@) == heads + scripts.take(i as int),
        decreases script_names.len() - i,
    {
        let c = (script_entry(pack.script_sub_dir.as_str(), script_names[i].as_str()), PackEntrySource::Script(i));
        let ghost old_cands = cands@;
        cands.push(c);
        assert(names[i as int] == script_names@[i as int]@);
        assert(candidates_view(cands@) == candidates_view(old_cands).push(scripts[i as int]));
        assert(scripts.take(i + 1) == scripts.take(i as int).push(scripts[i as int]));
        assert(candidates_view(cands@) == heads + scripts.take(i + 1));
        i += 1;
    }
    assert(scripts.take(i as int) == scripts);
    let mut k: usize = 0;
    while k < pack.assets.len()
        invariant
            k <= pack.assets.len(),
            assets == asset_candidates(pack.assets@),
            candidates_view(cands@) == heads + scripts + assets.take(k as int),
        decreases pack.assets.len() - k,
    {
        let c = (asset_entry(pack.assets[k].dest.as_str()), PackEntrySource::Asset(k));
        let ghost old_cands = cands@;
        cands.push(c);
        assert(candidates_view(cands@) == candidates_view(old_cands).push(assets[k as int]));
        assert(assets.take(k + 1) == assets.take(k as int).push(assets[k as int]));
        assert(candidates_view(cands@) == heads + scripts + assets.take(k + 1));
        k += 1;
    }
    assert(assets.take(k as int) == assets);
    let ghost cv = candidates_view(cands@);
    assert(cv == package_candidates(*pack, names));
    let mut entries: Vec<(String, PackEntrySource)> = Vec::new();
    let mut seen: Vec<String> = Vec::new();
    let mut j: usize = 0;
    assert(cv.take(0) == Seq::<PackCandidate>::empty());
    assert(entry_paths(entries_view(entries@)) == Seq::<Seq<char>>::empty());
    while j < cands.len()
        invariant
            j <= cands.len(),
            cv == candidates_view(cands@),
            cv == package_candidates(*pack, strings_view(script_names@)),
            planned(cv.take(j as int)) == (entries_view(entries@), None::<(PackEntrySource, ArchivePathError)>),
            strings_view(seen@) == entry_paths(entries_view(entries@)),
        decreases cands.len() - j,
    {
        let ghost before = entries_view(entries@);
        assert(cv.take(j + 1).drop_last() == cv.take(j as int));
        assert(cv.take(j + 1).last() == cv[j as int]);
        assert(cv[j as int] == (path_result_view(cands@[j as int].0), cands@[j as int].1));
        let src = cands[j].1;
        match &cands[j].0 {
            Err(e) => {
                proof {
                    assert(path_result_view(cands@[j as int].0) == Err::<Seq<char>, ArchivePathError>(*e));
                    assert(planned(cv.take(j + 1)) == (before, Some((src, *e))));
                    lemma_planned_failure_stays(cv, j + 1);
                }
                return PackagePlan { entries, failure: Some((src, *e)) };
            },
            Ok(p) => {
                match ensure_unique_archive_path(&mut seen, p.as_str()) {
                    Err(e) => {
                        proof {
                            lemma_planned_failure_stays(cv, j + 1);
                        }
                        return PackagePlan { entries, failure: Some((src, e)) };
                    },
                    Ok(()) => {
                        entries.push((p.clone(), src));
                        assert(entries_view(entries@) == before.push((p@, src)));
                        assert(entry_paths(entries_view(entries@)) == entry_paths(before).push(p@));
                    },
                }
            },
        }
        j += 1;
    }
    assert(cv.take(j as int) == cv);
    PackagePlan { entries, failure: None }
}

/// Once adding entries has failed, adding more changes nothing.
proof fn lemma_planned_failure_stays(cs: Seq<PackCandidate>, k: int)
    requires
        0 <= k <= cs.len(),
        planned(cs.take(k)).1 is Some,
    ensures
        planned(cs) == planned(cs.take(k)),
    decreases cs.len(),
{
    if k == cs.len() {
        assert(cs.take(k) == cs);
    } else {
        assert(cs.drop_last().take(k) == cs.take(k));
        lemma_planned_failure_stays(cs.drop_last(), k);
    }
}

// ---------------------------------------------------------------------------
// Laws
// ---------------------------------------------------------------------------
proof fn lemma_crlf_after_crlf(x: Seq<char>)
    ensures
        crlf_text(seq!['\r', '\n'] + x) == seq!['\r', '\n'] + crlf_text(x),
{
    let s = seq!['\r', '\n'] + x;
    assert(s[0] == '\r' && s[1] == '\n');
    assert(s.skip(2) == x);
}

proof fn lemma_crlf_after_char(c: char, x: Seq<char>)
    requires
        c != '\r',
        c != '\n',
    ensures
        crlf_text(seq![c] + x) == seq![c] + crlf_text(x),
{
    let s = seq![c] + x;
    assert(s[0] == c);
    assert(s.skip(1) == x);
}

/// Converting line endings to CRLF a second time changes nothing.
pub proof fn lemma_crlf_idempotent(s: Seq<char>)
    ensures
        crlf_text(crlf_text(s)) == crlf_text(s),
    decreases s.len(),
{
    if s.len() > 0 {
        if s[0] == '\r' || s[0] == '\n' {
            let t = if s[0] == '\r' && s.len() > 1 && s[1] == '\n' {
                s.skip(2)
            } else {
                s.skip(1)
            };
            lemma_crlf_idempotent(t);
            lemma_crlf_after_crlf(crlf_text(t));
        } else {
            lemma_crlf_idempotent(s.skip(1));
            lemma_crlf_after_char(s[0], crlf_text(s.skip(1)));
        }
    }
}

/// Every `\r` is followed by `\n`, and every `\n` follows `\r`.
pub open spec fn crlf_only(t: Seq<char>) -> bool {
    forall|i: int|
        0 <= i < t.len() ==> (#[trigger] t[i] == '\r' ==> i + 1 < t.len() && t[i + 1] == '\n') && (
        t[i] == '\n' ==> i > 0 && t[i - 1] == '\r')
}

proof fn lemma_crlf_only_concat(a: Seq<char>, b: Seq<char>)
    requires
        crlf_only(a),
        crlf_only(b),
    ensures
        crlf_only(a + b),
{
    let t = a + b;
    assert forall|i: int| 0 <= i < t.len() implies (#[trigger] t[i] == '\r' ==> i + 1 < t.len()
        && t[i + 1] == '\n') && (t[i] == '\n' ==> i > 0 && t[i - 1] == '\r') by {
        if i < a.len() {
            assert(t[i] == a[i]);
            if i + 1 < a.len() {
                assert(t[i + 1] == a[i + 1]);
            }
            if i > 0 {
                assert(t[i - 1] == a[i - 1]);
            }
        } else {
            assert(t[i] == b[i - a.len()]);
            if i + 1 < t.len() {
                assert(t[i + 1] == b[i + 1 - a.len()]);
            }
            if i > a.len() {
                assert(t[i - 1] == b[i - 1 - a.len()]);
            } else if i > 0 {
                assert(t[i - 1] == a[a.len() - 1]);
            }
        }
    }
}

/// After conversion, line endings are CRLF only: every `\r` is followed by
/// `\n`, and every `\n` follows a `\r`.
pub proof fn lemma_crlf_only(s: Seq<char>)
    ensures
        crlf_only(crlf_text(s)),
    decreases s.len(),
{
    if s.len() > 0 {
        let pair = seq!['\r', '\n'];
        assert(crlf_only(pair)) by {
            assert(pair[0] == '\r' && pair[1] == '\n');
        }
        if s[0] == '\r' || s[0] == '\n' {
            let t = if s[0] == '\r' && s.len() > 1 && s[1] == '\n' {
                s.skip(2)
            } else {
                s.skip(1)
            };
            lemma_crlf_only(t);
            lemma_crlf_only_concat(pair, crlf_text(t));
        } else {
            let one = seq![s[0]];
            assert(crlf_only(one)) by {
                assert(one[0] == s[0]);
            }
            lemma_crlf_only(s.skip(1));
            lemma_crlf_only_concat(one, crlf_text(s.skip(1)));
        }
    } else {
        assert(crlf_text(s) == Seq::<char>::empty());
    }
}

proof fn lemma_replaced_head_char(c: char, x: Seq<char>, a: char, b: Seq<char>)
    ensures
        replaced(seq![c] + x, seq![a], b) == (if c == a {
            b
        } else {
            seq![c]
        }) + replaced(x, seq![a], b),
{
    let s = seq![c] + x;
    assert(s[0] == c);
    assert(s.skip(1) == x);
    assert(s.drop_first() == x);
    if c == a {
        assert(seq![a].is_prefix_of(s)) by {
            assert(s.subrange(0, 1) == seq![a]);
        }
    } else {
        assert(!seq![a].is_prefix_of(s)) by {
            if seq![a].is_prefix_of(s) {
                assert(s.subrange(0, 1)[0] == a);
            }
        }
    }
}

/// How normalizing line endings to `\n` reads the head of a text.
proof fn lemma_normalized_head(s: Seq<char>)
    requires
        s.len() > 0,
    ensures
        newlines_normalized(s) == if s[0] == '\r' && s.len() > 1 && s[1] == '\n' {
            seq!['\n'] + newlines_normalized(s.skip(2))
        } else if s[0] == '\r' {
            seq!['\n'] + newlines_normalized(s.skip(1))
        } else {
            seq![s[0]] + newlines_normalized(s.skip(1))
        },
{
    let crlf = seq!['\r', '\n'];
    let lf = seq!['\n'];
    if s[0] == '\r' && s.len() > 1 && s[1] == '\n' {
        assert(crlf.is_prefix_of(s)) by {
            assert(s.subrange(0, 2) == crlf);
        }
        let rest = replaced(s.skip(2), crlf, lf);
        assert(replaced(s, crlf, lf) == lf + rest);
        assert(lf + rest == seq!['\n'] + rest);
        lemma_replaced_head_char('\n', rest, '\r', lf);
    } else {
        assert(!crlf.is_prefix_of(s)) by {
            if crlf.is_prefix_of(s) {
                assert(s.subrange(0, 2)[0] == '\r');
                assert(s.subrange(0, 2)[1] == '\n');
            }
        }
        assert(s.drop_first() == s.skip(1));
        let rest = replaced(s.skip(1), crlf, lf);
        assert(replaced(s, crlf, lf) == seq![s[0]] + rest);
        lemma_replaced_head_char(s[0], rest, '\r', lf);
    }
}

/// Converting line endings to CRLF is the same as first writing every line
/// ending (`\r\n`, then a lone `\r`) as `\n`, then every `\n` as `\r\n`.
pub proof fn lemma_crlf_is_replacement(s: Seq<char>)
    ensures
        crlf_text(s) == replaced(newlines_normalized(s), seq!['\n'], seq!['\r', '\n']),
    decreases s.len(),
{
    let crlf = seq!['\r', '\n'];
    let lf = seq!['\n'];
    if s.len() == 0 {
        assert(replaced(s, seq!['\r', '\n'], lf) == s);
        assert(replaced(s, seq!['\r'], lf) == s);
        assert(replaced(s, lf, crlf) == s);
    } else {
        lemma_normalized_head(s);
        let t = if s[0] == '\r' && s.len() > 1 && s[1] == '\n' {
            s.skip(2)
        } else {
            s.skip(1)
        };
        lemma_crlf_is_replacement(t);
        if s[0] == '\r' || s[0] == '\n' {
            lemma_replaced_head_char('\n', newlines_normalized(t), '\n', crlf);
        } else {
            lemma_replaced_head_char(s[0], newlines_normalized(t), '\n', crlf);
        }
    }
}

/// A checked package path is its own normal form: checking it again accepts
/// it unchanged.
pub proof fn lemma_normalize_idempotent(p: Seq<char>)
    requires
        normalized_archive_path(p) is Ok,
    ensures
        normalized_archive_path(normalized_archive_path(p).unwrap()) == normalized_archive_path(p),
{
    let q = slashed(p);
    crate::text_utils::lemma_replaced_char_gone(p, '\\', '/');
    crate::text_utils::lemma_replaced_char_absent(q, '\\', '/');
}

/// Adding the same path twice: whatever became of the first addition, the
/// second is refused and leaves the paths as they were.
pub proof fn lemma_added_path_refused(seen: Seq<Seq<char>>, path: Seq<char>)
    ensures
        added_path(added_path(seen, path).0, path) == (
            added_path(seen, path).0,
            Err::<(), ArchivePathError>(ArchivePathError::Duplicate),
        ),
{
    if !seen.contains(path) {
        assert(seen.push(path)[seen.len() as int] == path);
    }
}

/// Where a built script goes in the package: `Script/<sub>/<name>`, or
/// directly `Script/<name>` when the script directory is empty.
pub proof fn lemma_script_place(sub: Seq<char>, name: Seq<char>)
    requires
        name.len() > 0,
    ensures
        sub.len() == 0 ==> script_entry_path(sub, name) == install_entry_path(
            normalized_archive_path("Script"@ + "/"@ + name),
        ),
        sub.len() > 0 ==> script_entry_path(sub, name) == install_entry_path(
            normalized_archive_path("Script"@ + "/"@ + sub + "/"@ + name),
        ),
{
    reveal_strlit("Script");
    let ps = seq!["Script"@, sub, name];
    let two = seq!["Script"@, sub];
    let one = seq!["Script"@];
    assert(ps.drop_last() == two && ps.last() == name);
    assert(two.drop_last() == one && two.last() == sub);
    assert(one.drop_last() == Seq::<Seq<char>>::empty() && one.last() == "Script"@);
    assert("Script"@.len() > 0);
    assert(nonempty_parts(Seq::<Seq<char>>::empty()) == Seq::<Seq<char>>::empty());
    assert(Seq::<Seq<char>>::empty().push("Script"@) == one);
    assert(nonempty_parts(one) == one);
    assert(one[0] == "Script"@);
    assert(joined(one, "/"@) == "Script"@);
    if sub.len() == 0 {
        assert(nonempty_parts(two) == one);
        assert(nonempty_parts(ps) == one.push(name));
        assert(one.push(name).drop_last() == one);
        assert(one.push(name).last() == name);
        assert(joined(one.push(name), "/"@) == "Script"@ + "/"@ + name);
    } else {
        assert(nonempty_parts(two) == two);
        assert(nonempty_parts(ps) == two.push(name));
        assert(two.push(name).drop_last() == two);
        assert(two.push(name).last() == name);
        assert(joined(two, "/"@) == "Script"@ + "/"@ + sub);
        assert(joined(two.push(name), "/"@) == "Script"@ + "/"@ + sub + "/"@ + name);
    }
}

proof fn lemma_root_letters(r: Seq<char>)
    requires
        r == "Plugin"@ || r == "Script"@ || r == "Language"@ || r == "Alias"@ || r == "Figure"@
            || r == "Transition"@ || r == "Preset"@ || r == "Default"@,
    ensures
        0 < r.len() <= 10,
        forall|j: int|
            0 <= j < r.len() ==> (65 <= (#[trigger] r[j]) as int <= 90 || 97 <= r[j] as int <= 122),
        r[0] != 'p',
{
    reveal_strlit("Plugin");
    reveal_strlit("Script");
    reveal_strlit("Language");
    reveal_strlit("Alias");
    reveal_strlit("Figure");
    reveal_strlit("Transition");
    reveal_strlit("Preset");
    reveal_strlit("Default");
    assert forall|j: int| 0 <= j < r.len() implies (65 <= (#[trigger] r[j]) as int <= 90 || 97
        <= r[j] as int <= 122) by {
        assert(j == 0 || j == 1 || j == 2 || j == 3 || j == 4 || j == 5 || j == 6 || j == 7 || j
            == 8 || j == 9);
    }
}

/// Every documented install directory takes files: for each of `Plugin`,
/// `Script`, `Language`, `Alias`, `Figure`, `Transition`, `Preset` and
/// `Default`, a path `<dir>/<name>` passes the check, `name` being any file
/// name that can stand as one component (not empty, not `.` or `..`, without
/// `/`, `\` or `:`).
pub proof fn lemma_install_roots_accept(r: Seq<char>, n: Seq<char>)
    requires
        r == "Plugin"@ || r == "Script"@ || r == "Language"@ || r == "Alias"@ || r == "Figure"@
            || r == "Transition"@ || r == "Preset"@ || r == "Default"@,
        n.len() > 0,
        n != "."@,
        n != ".."@,
        !n.contains('/'),
        !n.contains('\\'),
        !n.contains(':'),
    ensures
        install_path_check(r + "/"@ + n) == Ok::<(), ArchivePathError>(()),
{
    reveal_strlit("/");
    reveal_strlit(".");
    reveal_strlit("..");
    reveal_strlit("package.ini");
    reveal_strlit("package.txt");
    reveal_strlit("Plugin");
    reveal_strlit("Script");
    reveal_strlit("Language");
    reveal_strlit("Alias");
    reveal_strlit("Figure");
    reveal_strlit("Transition");
    reveal_strlit("Preset");
    reveal_strlit("Default");
    lemma_root_letters(r);
    let q = r + seq!['/'] + n;
    assert(r + "/"@ + n == q);
    assert forall|c: char| c == '/' || c == '\\' || c == ':' implies !r.contains(c) by {
        if r.contains(c) {
            let j = choose|j: int| 0 <= j < r.len() && r[j] == c;
            assert(65 <= r[j] as int <= 90 || 97 <= r[j] as int <= 122);
        }
    }
    assert(!q.contains('\\')) by {
        if q.contains('\\') {
            let j = choose|j: int| 0 <= j < q.len() && q[j] == '\\';
            if j < r.len() {
                assert(q[j] == r[j]);
            } else if j > r.len() {
                assert(q[j] == n[j - r.len() - 1]);
            }
        }
    }
    crate::text_utils::lemma_replaced_char_absent(q, '\\', '/');
    assert(slashed(q) == q);
    assert(q[0] == r[0]);
    assert(65 <= r[0] as int <= 90 || 97 <= r[0] as int <= 122);
    crate::text_utils::lemma_trimmed_nonempty(q);
    assert(!has_prefix(q, "/"@)) by {
        if has_prefix(q, "/"@) {
            assert(q[0] == "/"@[0]);
        }
    }
    crate::text_utils::lemma_split_without_sep(r, '/');
    crate::text_utils::lemma_split_append(r, '/', n);
    let cs = split_pieces(q, '/');
    assert(cs == seq![r, n]);
    crate::text_utils::lemma_first_index_from(r, ':', 0);
    crate::text_utils::lemma_first_index_from(n, ':', 0);
    if let Some(k) = first_index_of(n, ':') {
        assert(n[k] == ':');
    }
    assert(r != "."@ && r != ".."@) by {
        assert(r[0] != '.');
    }
    assert(component_error(r) is None);
    assert(component_error(n) is None);
    assert(first_component_error(cs, 2) is None);
    assert(first_component_error(cs, 1) is None);
    assert(first_component_error(cs, 0) is None);
    assert(normalized_archive_path(q) == Ok::<Seq<char>, ArchivePathError>(q));
    assert(q != "package.ini"@ && q != "package.txt"@) by {
        assert("package.ini"@[0] == 'p');
        assert("package.txt"@[0] == 'p');
    }
    assert(is_install_root(cs[0]));
}

proof fn lemma_planned_shape(cs: Seq<PackCandidate>)
    ensures
        entry_paths(planned(cs).0).no_duplicates(),
        planned(cs).1 is None ==> planned(cs).0.len() == cs.len() && forall|i: int|
            0 <= i < cs.len() ==> cs[i].0 == Ok::<Seq<char>, ArchivePathError>((#[trigger] planned(cs).0[i]).0)
                && planned(cs).0[i].1 == cs[i].1,
    decreases cs.len(),
{
    if cs.len() > 0 {
        let prev = planned(cs.drop_last());
        lemma_planned_shape(cs.drop_last());
        if prev.1 is None {
            let c = cs.last();
            if let Ok(p) = c.0 {
                if !entry_paths(prev.0).contains(p) {
                    let es = prev.0.push((p, c.1));
                    assert(entry_paths(es) == entry_paths(prev.0).push(p));
                    assert forall|i: int| 0 <= i < cs.len() implies cs[i].0 == Ok::<Seq<char>, ArchivePathError>(
                        (#[trigger] es[i]).0,
                    ) && es[i].1 == cs[i].1 by {
                        if i < cs.len() - 1 {
                            assert(cs.drop_last()[i] == cs[i]);
                        }
                    }
                }
            }
        }
    }
}

/// A package that can be made holds each of its entries once and in order:
/// entry `i` has the path and the source of the `i`-th entry of
/// [`package_candidates`], so `package.ini` comes first, and no two entries
/// share a path.
pub proof fn lemma_package_plan_entries(pack: PackConfig, names: Seq<Seq<char>>)
    requires
        package_plan(pack, names) is Ok,
    ensures
        ({
            let es = package_plan(pack, names).unwrap();
            let cs = package_candidates(pack, names);
            &&& es.len() == cs.len()
            &&& forall|i: int|
                0 <= i < cs.len() ==> cs[i].0 == Ok::<Seq<char>, ArchivePathError>((#[trigger] es[i]).0)
                    && es[i].1 == cs[i].1
            &&& es[0] == ("package.ini"@, PackEntrySource::PackageIni)
            &&& entry_paths(es).no_duplicates()
        }),
{
    let cs = package_candidates(pack, names);
    lemma_planned_shape(cs);
    assert(cs[0] == head_candidates(pack.message is Some)[0]);
}

} // verus!
