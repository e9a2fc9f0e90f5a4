use vstd::prelude::*;

use crate::text_utils::{find_char, first_index_of, from_chars, push_all, to_chars, trim, trimmed};

verus! {

// ---------------------------------------------------------------------------
// Variables
// ---------------------------------------------------------------------------
/// A table of string variables: `name -> value`. Bindings are kept in the
/// order they were made, and a later binding of a name hides earlier ones.
#[derive(Debug, Clone)]
pub struct VarMap {
    entries: Vec<(String, String)>,
}

/// The variables a list of bindings defines, later bindings winning.
pub open spec fn bindings_map(entries: Seq<(String, String)>) -> Map<Seq<char>, Seq<char>>
    decreases entries.len(),
{
    if entries.len() == 0 {
        Map::empty()
    } else {
        bindings_map(entries.drop_last()).insert(entries.last().0@, entries.last().1@)
    }
}

impl View for VarMap {
    type V = Map<Seq<char>, Seq<char>>;

    closed spec fn view(&self) -> Map<Seq<char>, Seq<char>> {
        bindings_map(self.entries@)
    }
}

impl VarMap {
    /// A table with no variables.
    pub fn new() -> (r: VarMap)
        ensures
            r@ == Map::<Seq<char>, Seq<char>>::empty(),
    {
        VarMap { entries: Vec::new() }
    }

    /// Binds `name` to `value`, replacing any earlier value of `name`.
    pub fn insert(&mut self, name: String, value: String)
        ensures
            final(self)@ == old(self)@.insert(name@, value@),
    {
        let ghost old_entries = self.entries@;
        self.entries.push((name, value));
        assert(self.entries@.drop_last() == old_entries);
    }

    /// The value of `name`, if it is defined.
    pub fn get(&self, name: &str) -> (r: Option<&String>)
        ensures
            match r {
                Some(v) => self@.dom().contains(name@) && self@[name@] == v@,
                None => !self@.dom().contains(name@),
            },
    {
        let key = String::from_str(name);
        let ghost es = self.entries@;
        let mut j = self.entries.len();
        assert(es.take(j as int) == es);
        while j > 0
            invariant
                j <= es.len(),
                es == self.entries@,
                key@ == name@,
                bindings_map(es).dom().contains(name@) == bindings_map(es.take(j as int)).dom().contains(name@),
                bindings_map(es).dom().contains(name@) ==> bindings_map(es)[name@] == bindings_map(es.take(j as int))[name@],
            decreases j,
        {
            assert(es.take(j as int).drop_last() == es.take(j - 1));
            assert(es.take(j as int).last() == es[j - 1]);
            if self.entries[j - 1].0 == key {
                return Some(&self.entries[j - 1].1);
            }
            j -= 1;
        }
        None
    }

    /// Adds the bindings of `other`, which win over those of `self`.
    pub fn extend_from(&mut self, other: &VarMap)
        ensures
            final(self)@ == old(self)@.union_prefer_right(other@),
    {
        let ghost base = self.entries@;
        let mut i: usize = 0;
        assert(other.entries@.take(0) == Seq::<(String, String)>::empty());
        assert(bindings_map(base).union_prefer_right(Map::empty()) == bindings_map(base));
        while i < other.entries.len()
            invariant
                i <= other.entries.len(),
                bindings_map(self.entries@) == bindings_map(base).union_prefer_right(
                    bindings_map(other.entries@.take(i as int)),
                ),
            decreases other.entries.len() - i,
        {
            let ghost before = self.entries@;
            let e = (other.entries[i].0.clone(), other.entries[i].1.clone());
            self.entries.push(e);
            assert(self.entries@.drop_last() == before);
            assert(other.entries@.take(i + 1).drop_last() == other.entries@.take(i as int));
            assert(other.entries@.take(i + 1).last() == e);
            assert(bindings_map(self.entries@) == bindings_map(base).union_prefer_right(
                bindings_map(other.entries@.take(i + 1)),
            ));
            i += 1;
        }
        assert(other.entries@.take(other.entries.len() as int) == other.entries@);
    }

    /// A copy of the table.
    pub fn copy(&self) -> (r: VarMap)
        ensures
            r@ == self@,
    {
        let mut entries: Vec<(String, String)> = Vec::new();
        let mut i: usize = 0;
        while i < self.entries.len()
            invariant
                i <= self.entries.len(),
                entries@ == self.entries@.take(i as int),
            decreases self.entries.len() - i,
        {
            let e = (self.entries[i].0.clone(), self.entries[i].1.clone());
            entries.push(e);
            assert(self.entries@.take(i + 1) == self.entries@.take(i as int).push(self.entries@[i as int]));
            i += 1;
        }
        assert(self.entries@.take(self.entries.len() as int) == self.entries@);
        VarMap { entries }
    }

    /// The bindings in the order they were made; later ones win.
    pub fn bindings(&self) -> (r: Vec<(String, String)>)
        ensures
            bindings_map(r@) == self@,
    {
        self.copy().entries
    }

    /// A table with the given bindings, later ones winning.
    pub fn from_pairs(pairs: Vec<(String, String)>) -> (r: VarMap)
        ensures
            r@ == bindings_map(pairs@),
    {
        VarMap { entries: pairs }
    }
}


// ---------------------------------------------------------------------------
// Package templates
// ---------------------------------------------------------------------------
/// Why a package template could not be rendered.
#[derive(Debug, Clone, PartialEq)]
pub enum TemplateError {
    /// A `{` without a matching `}`.
    Unclosed,
    /// An empty placeholder `{}`.
    EmptyPlaceholder,
    /// A placeholder naming a variable that is not defined.
    Undefined(String),
}

/// Mathematical value of a [`TemplateError`].
pub enum TemplateErrorView {
    Unclosed,
    EmptyPlaceholder,
    Undefined(Seq<char>),
}

impl View for TemplateError {
    type V = TemplateErrorView;

    open spec fn view(&self) -> TemplateErrorView {
        match self {
            TemplateError::Unclosed => TemplateErrorView::Unclosed,
            TemplateError::EmptyPlaceholder => TemplateErrorView::EmptyPlaceholder,
            TemplateError::Undefined(k) => TemplateErrorView::Undefined(k@),
        }
    }
}

/// A package template with every `{name}` replaced by the value of `name`.
/// The first problem met, reading from the left, is the error.
pub open spec fn rendered_template(input: Seq<char>, vars: Map<Seq<char>, Seq<char>>) -> Result<
    Seq<char>,
    TemplateErrorView,
>
    decreases input.len(),
{
    if input.len() == 0 {
        Ok(Seq::empty())
    } else if input[0] != '{' {
        match rendered_template(input.drop_first(), vars) {
            Ok(r) => Ok(seq![input[0]] + r),
            Err(e) => Err(e),
        }
    } else {
        let rest = input.drop_first();
        match first_index_of(rest, '}') {
            None => Err(TemplateErrorView::Unclosed),
            Some(j) => {
                let key = rest.take(j);
                if key.len() == 0 {
                    Err(TemplateErrorView::EmptyPlaceholder)
                } else if !vars.dom().contains(key) {
                    Err(TemplateErrorView::Undefined(key))
                } else {
                    proof {
                        crate::text_utils::lemma_first_index_from(rest, '}', 0);
                    }
                    match rendered_template(rest.skip(j + 1), vars) {
                        Ok(r) => Ok(vars[key] + r),
                        Err(e) => Err(e),
                    }
                }
            },
        }
    }
}

pub open spec fn template_result_view(r: Result<String, TemplateError>) -> Result<
    Seq<char>,
    TemplateErrorView,
> {
    match r {
        Ok(s) => Ok(s@),
        Err(e) => Err(e@),
    }
}

/// Renders a package template: each `{name}` is replaced by the value of `name`.
pub fn render_package_template(input: &str, vars: &VarMap) -> (r: Result<String, TemplateError>)
    ensures
        template_result_view(r) == rendered_template(input@, vars@),
{
    let s = to_chars(input);
    let mut out: Vec<char> = Vec::new();
    let mut i: usize = 0;
    assert(s@.skip(0) == s@);
    while i < s.len()
        invariant
            i <= s.len(),
            s@ == input@,
            rendered_template(input@, vars@) == match rendered_template(s@.skip(i as int), vars@) {
                Ok(r) => Ok(out@ + r),
                Err(e) => Err(e),
            },
        decreases s.len() - i,
    {
        let ghost rest = s@.skip(i as int);
        let ghost before = out@;
        if s[i] != '{' {
            out.push(s[i]);
            assert(rest.drop_first() == s@.skip(i + 1));
            proof {
                if let Ok(r) = rendered_template(s@.skip(i + 1), vars@) {
                    assert(before + (seq![rest[0]] + r) == out@ + r);
                }
            }
            i += 1;
        } else {
            let after = crate::text_utils::copy_range(&s, i + 1, s.len());
            assert(after@ == rest.drop_first());
            match find_char(&after, '}') {
                None => {
                    return Err(TemplateError::Unclosed);
                },
                Some(j) => {
                    let key = crate::text_utils::copy_range(&after, 0, j);
                    if key.len() == 0 {
                        return Err(TemplateError::EmptyPlaceholder);
                    }
                    let key = from_chars(&key);
                    match vars.get(key.as_str()) {
                        None => {
                            return Err(TemplateError::Undefined(key));
                        },
                        Some(value) => {
                            push_all(&mut out, &to_chars(value.as_str()));
                            assert(after@.skip(j + 1) == s@.skip(i + 1 + j + 1));
                            proof {
                                if let Ok(r) = rendered_template(s@.skip(i + j + 2), vars@) {
                                    assert(before + (value@ + r) == out@ + r);
                                }
                            }
                            i = i + j + 2;
                        },
                    }
                },
            }
        }
    }
    assert(s@.skip(s.len() as int) == Seq::<char>::empty());
    Ok(from_chars(&out))
}

/// A template without `{` renders as itself.
pub proof fn lemma_plain_template(input: Seq<char>, vars: Map<Seq<char>, Seq<char>>)
    requires
        !input.contains('{'),
    ensures
        rendered_template(input, vars) == Ok::<Seq<char>, TemplateErrorView>(input),
    decreases input.len(),
{
    if input.len() > 0 {
        assert(!input.drop_first().contains('{')) by {
            if input.drop_first().contains('{') {
                let k = choose|k: int| 0 <= k < input.drop_first().len() && input.drop_first()[k] == '{';
                assert(input[k + 1] == '{');
            }
        }
        lemma_plain_template(input.drop_first(), vars);
        assert(input[0] != '{') by {
            if input[0] == '{' {
                assert(input.contains('{'));
            }
        }
        assert(input == seq![input[0]] + input.drop_first());
    } else {
        assert(input == Seq::<char>::empty());
    }
}

/// Reading a template from the left, a character other than `{` is kept as
/// it is, in front of what the rest renders to.
pub proof fn lemma_template_keeps_char(c: char, rest: Seq<char>, vars: Map<Seq<char>, Seq<char>>)
    requires
        c != '{',
    ensures
        rendered_template(seq![c] + rest, vars) == match rendered_template(rest, vars) {
            Ok(r) => Ok(seq![c] + r),
            Err(e) => Err::<Seq<char>, TemplateErrorView>(e),
        },
{
    let s = seq![c] + rest;
    assert(s[0] == c);
    assert(s.drop_first() == rest);
}

proof fn lemma_first_close(key: Seq<char>, rest: Seq<char>)
    requires
        !key.contains('}'),
    ensures
        first_index_of(key + seq!['}'] + rest, '}') == Some(key.len() as int),
{
    let s = key + seq!['}'] + rest;
    crate::text_utils::lemma_first_index_from(s, '}', 0);
    assert(s[key.len() as int] == '}');
    if let Some(k) = first_index_of(s, '}') {
        if k < key.len() {
            assert(s[k] == key[k]);
            assert(key.contains('}'));
        }
    }
}

/// A placeholder `{key}` (the key not empty and holding no `}`) is replaced by
/// the value of `key` as it is, without rendering the value again, in front
/// of what the rest renders to; an undefined key is the error.
pub proof fn lemma_template_placeholder(key: Seq<char>, rest: Seq<char>, vars: Map<Seq<char>, Seq<char>>)
    requires
        key.len() > 0,
        !key.contains('}'),
    ensures
        rendered_template(seq!['{'] + key + seq!['}'] + rest, vars) == if vars.dom().contains(key) {
            match rendered_template(rest, vars) {
                Ok(r) => Ok(vars[key] + r),
                Err(e) => Err::<Seq<char>, TemplateErrorView>(e),
            }
        } else {
            Err(TemplateErrorView::Undefined(key))
        },
{
    let s = seq!['{'] + key + seq!['}'] + rest;
    let tail = key + seq!['}'] + rest;
    assert(s[0] == '{');
    assert(s.drop_first() == tail);
    lemma_first_close(key, rest);
    assert(tail.take(key.len() as int) == key);
    assert(tail.skip(key.len() as int + 1) == rest);
}

/// A `{` with no `}` after it leaves the placeholder unclosed; `{}` is an
/// empty placeholder.
pub proof fn lemma_template_bad_placeholder(rest: Seq<char>, vars: Map<Seq<char>, Seq<char>>)
    ensures
        !rest.contains('}') ==> rendered_template(seq!['{'] + rest, vars) == Err::<
            Seq<char>,
            TemplateErrorView,
        >(TemplateErrorView::Unclosed),
        rendered_template(seq!['{', '}'] + rest, vars) == Err::<Seq<char>, TemplateErrorView>(
            TemplateErrorView::EmptyPlaceholder,
        ),
{
    let s = seq!['{'] + rest;
    assert(s.drop_first() == rest);
    crate::text_utils::lemma_first_index_from(rest, '}', 0);
    if !rest.contains('}') {
        if let Some(k) = first_index_of(rest, '}') {
            assert(rest[k] == '}');
        }
    }
    let t = seq!['{', '}'] + rest;
    lemma_first_close(Seq::empty(), rest);
    assert(t.drop_first() == Seq::<char>::empty() + seq!['}'] + rest);
}

/// A variable read after it is set gives the value set; other variables are
/// unaffected.
pub proof fn lemma_get_after_insert(
    m: Map<Seq<char>, Seq<char>>,
    name: Seq<char>,
    value: Seq<char>,
    other: Seq<char>,
)
    ensures
        m.insert(name, value).dom().contains(name),
        m.insert(name, value)[name] == value,
        other != name ==> (m.insert(name, value).dom().contains(other) == m.dom().contains(other)),
        other != name && m.dom().contains(other) ==> m.insert(name, value)[other] == m[other],
{
}

/// The variables of package templates: the project's variables, then `id`,
/// `name`, and `version` when there is one.
pub open spec fn package_vars(
    project: Map<Seq<char>, Seq<char>>,
    id: Seq<char>,
    name: Seq<char>,
    version: Option<Seq<char>>,
) -> Map<Seq<char>, Seq<char>> {
    let m = project.insert("id"@, id).insert("name"@, name);
    match version {
        Some(v) => m.insert("version"@, v),
        None => m,
    }
}

/// The variables of package templates (see [`package_vars`]).
pub fn build_package_template_vars(
    project_vars: &VarMap,
    id: &str,
    name: &str,
    version: Option<&str>,
) -> (r: VarMap)
    ensures
        r@ == package_vars(
            project_vars@,
            id@,
            name@,
            match version {
                Some(v) => Some(v@),
                None => None,
            },
        ),
{
    let mut vars = project_vars.copy();
    vars.insert(String::from_str("id"), String::from_str(id));
    vars.insert(String::from_str("name"), String::from_str(name));
    if let Some(version) = version {
        vars.insert(String::from_str("version"), String::from_str(version));
    }
    vars
}


// ---------------------------------------------------------------------------
// Configuration as written in `aulua.yaml`
// ---------------------------------------------------------------------------
/// The whole configuration file.
#[derive(Debug)]
pub struct RawConfig {
    pub project: Option<RawProject>,
    pub build: Option<RawBuild>,
    pub install: Option<RawInstall>,
    pub package: Option<RawPackage>,
    pub scripts: Vec<RawScript>,
}

/// The `project` section.
#[derive(Debug)]
pub struct RawProject {
    pub variables: Option<VarMap>,
}

/// The `build` section.
#[derive(Debug)]
pub struct RawBuild {
    pub out_dir: Option<String>,
    pub embed_search_dirs: Option<Vec<String>>,
}

/// The `install` section.
#[derive(Debug)]
pub struct RawInstall {
    pub out_dir: Option<String>,
}

/// The `package` section.
#[derive(Debug)]
pub struct RawPackage {
    pub id: Option<String>,
    pub name: Option<String>,
    pub information: Option<String>,
    pub version: Option<String>,
    pub uninstall_sub_folder_file: Option<bool>,
    pub out_dir: Option<String>,
    pub file_name: Option<String>,
    pub script_sub_dir: Option<String>,
    pub message: Option<RawPackageMessage>,
    pub assets: Vec<RawPackageAsset>,
}

/// The text of `package.txt`: from a file, or given inline.
#[derive(Debug)]
pub enum RawPackageMessage {
    File { file: String },
    Text { text: String },
}

/// A file to put into the package at `dest`.
#[derive(Debug)]
pub struct RawPackageAsset {
    pub src: String,
    pub dest: String,
}

/// One output script.
#[derive(Debug)]
pub struct RawScript {
    pub name: String,
    pub sources: Vec<RawScriptSource>,
}

/// One source of an output script.
#[derive(Debug)]
pub struct RawScriptSource {
    pub path: String,
    pub label: Option<String>,
    pub variables: Option<VarMap>,
}

// ---------------------------------------------------------------------------
// Resolved configuration
// ---------------------------------------------------------------------------
/// The configuration with defaults filled in and paths made relative to the
/// configuration file's directory.
#[derive(Debug)]
pub struct ResolvedConfig {
    pub project: ResolvedProject,
    pub build: ResolvedBuild,
    pub install: ResolvedInstall,
    pub package: Option<ResolvedPackage>,
    pub scripts: Vec<ResolvedScript>,
    pub config_dir: String,
}

#[derive(Debug)]
pub struct ResolvedProject {
    pub variables: VarMap,
}

#[derive(Debug)]
pub struct ResolvedBuild {
    pub out_dir: String,
    pub embed_search_dirs: Vec<String>,
}

#[derive(Debug)]
pub struct ResolvedInstall {
    pub out_dir: String,
}

#[derive(Debug)]
pub struct ResolvedPackage {
    pub id: Option<String>,
    pub name: Option<String>,
    pub information: Option<String>,
    pub version: Option<String>,
    pub uninstall_sub_folder_file: bool,
    pub out_dir: String,
    pub file_name: Option<String>,
    pub script_sub_dir: Option<String>,
    pub message: Option<ResolvedPackageMessage>,
    pub assets: Vec<ResolvedPackageAsset>,
}

/// The text of `package.txt`: the file to read it from, or the text itself.
#[derive(Debug, Clone)]
pub enum ResolvedPackageMessage {
    File(String),
    Text(String),
}

/// A file to put into the package: its path, and its place in the package.
#[derive(Debug, Clone)]
pub struct ResolvedPackageAsset {
    pub src: String,
    pub dest: String,
}

#[derive(Debug)]
pub struct ResolvedScript {
    pub name: String,
    pub sources: Vec<ResolvedScriptSource>,
}

#[derive(Debug)]
pub struct ResolvedScriptSource {
    pub path: String,
    pub label: Option<String>,
    pub variables: VarMap,
}

/// Everything needed to write a package, with its templates rendered.
#[derive(Debug, Clone)]
pub struct PackConfig {
    pub id: String,
    pub name: String,
    pub information: String,
    pub version: Option<String>,
    pub uninstall_sub_folder_file: bool,
    pub out_dir: String,
    pub file_name: String,
    pub script_sub_dir: String,
    pub message: Option<ResolvedPackageMessage>,
    pub assets: Vec<ResolvedPackageAsset>,
}

/// Mathematical value of a [`ResolvedPackageMessage`]: whether it names a file, and the text.
pub open spec fn message_view(m: Option<ResolvedPackageMessage>) -> Option<(bool, Seq<char>)> {
    match m {
        Some(ResolvedPackageMessage::File(f)) => Some((true, f@)),
        Some(ResolvedPackageMessage::Text(t)) => Some((false, t@)),
        None => None,
    }
}

pub open spec fn opt_str(o: Option<String>) -> Option<Seq<char>> {
    match o {
        Some(s) => Some(s@),
        None => None,
    }
}

/// A setting that is given and not blank.
pub open spec fn present(o: Option<String>) -> Option<Seq<char>> {
    match o {
        Some(s) => if trimmed(s@).len() == 0 {
            None
        } else {
            Some(s@)
        },
        None => None,
    }
}

/// Why a package cannot be made from the configuration.
#[derive(Debug, Clone, PartialEq)]
pub enum PackageError {
    MissingPackage,
    MissingId,
    MissingName,
    MissingInformation,
    Template(TemplateError),
    EmptyInformation,
    EmptyFileName,
    /// The script directory renders as white space only.
    EmptyScriptSubDir,
}

/// Mathematical value of a [`PackageError`].
pub enum PackageErrorView {
    MissingPackage,
    MissingId,
    MissingName,
    MissingInformation,
    Template(TemplateErrorView),
    EmptyInformation,
    EmptyFileName,
    EmptyScriptSubDir,
}

impl View for PackageError {
    type V = PackageErrorView;

    open spec fn view(&self) -> PackageErrorView {
        match self {
            PackageError::MissingPackage => PackageErrorView::MissingPackage,
            PackageError::MissingId => PackageErrorView::MissingId,
            PackageError::MissingName => PackageErrorView::MissingName,
            PackageError::MissingInformation => PackageErrorView::MissingInformation,
            PackageError::Template(e) => PackageErrorView::Template(e@),
            PackageError::EmptyInformation => PackageErrorView::EmptyInformation,
            PackageError::EmptyFileName => PackageErrorView::EmptyFileName,
            PackageError::EmptyScriptSubDir => PackageErrorView::EmptyScriptSubDir,
        }
    }
}

/// The file-name template used when none is given.
pub open spec fn default_file_name_template(version: Option<Seq<char>>) -> Seq<char> {
    if version is Some {
        "{id}-v{version}.au2pkg.zip"@
    } else {
        "{id}.au2pkg.zip"@
    }
}

/// The rendered destinations of the assets, in order; the first failure is the error.
pub open spec fn rendered_dests(assets: Seq<ResolvedPackageAsset>, vars: Map<Seq<char>, Seq<char>>) -> Result<
    Seq<Seq<char>>,
    TemplateErrorView,
>
    decreases assets.len(),
{
    if assets.len() == 0 {
        Ok(Seq::empty())
    } else {
        match rendered_dests(assets.drop_last(), vars) {
            Err(e) => Err(e),
            Ok(ds) => match rendered_template(assets.last().dest@, vars) {
                Ok(d) => Ok(ds.push(d)),
                Err(e) => Err(e),
            },
        }
    }
}

/// When rendering the first `k` destinations fails, rendering all of them fails the same way.
proof fn lemma_dests_prefix_err(assets: Seq<ResolvedPackageAsset>, k: int, vars: Map<Seq<char>, Seq<char>>)
    requires
        0 <= k <= assets.len(),
        rendered_dests(assets.take(k), vars) is Err,
    ensures
        rendered_dests(assets, vars) == rendered_dests(assets.take(k), vars),
    decreases assets.len(),
{
    if k == assets.len() {
        assert(assets.take(k) == assets);
    } else {
        assert(assets.drop_last().take(k) == assets.take(k));
        lemma_dests_prefix_err(assets.drop_last(), k, vars);
    }
}

/// Id, name, information, file name, script directory and asset destinations of a package.
pub type PackageTexts = (Seq<char>, Seq<char>, Seq<char>, Seq<char>, Seq<char>, Seq<Seq<char>>);

/// The texts of a package: id, name, information, file name, script
/// directory and asset destinations; or the first problem, in the order
/// the package section is checked.
pub open spec fn package_texts(
    project_vars: Map<Seq<char>, Seq<char>>,
    package: Option<ResolvedPackage>,
) -> Result<PackageTexts, PackageErrorView> {
    match package {
        None => Err(PackageErrorView::MissingPackage),
        Some(p) => match present(p.id) {
            None => Err(PackageErrorView::MissingId),
            Some(id) => match present(p.name) {
                None => Err(PackageErrorView::MissingName),
                Some(name) => match present(p.information) {
                    None => Err(PackageErrorView::MissingInformation),
                    Some(info_t) => {
                        let vars = package_vars(project_vars, id, name, opt_str(p.version));
                        let file_t = match p.file_name {
                            Some(f) => f@,
                            None => default_file_name_template(opt_str(p.version)),
                        };
                        let sub_t = match p.script_sub_dir {
                            Some(d) => d@,
                            None => "{id}"@,
                        };
                        match rendered_template(info_t, vars) {
                            Err(e) => Err(PackageErrorView::Template(e)),
                            Ok(info) => match rendered_template(file_t, vars) {
                                Err(e) => Err(PackageErrorView::Template(e)),
                                Ok(file) => match rendered_template(sub_t, vars) {
                                    Err(e) => Err(PackageErrorView::Template(e)),
                                    Ok(sub) => if trimmed(info).len() == 0 {
                                        Err(PackageErrorView::EmptyInformation)
                                    } else if trimmed(file).len() == 0 {
                                        Err(PackageErrorView::EmptyFileName)
                                    } else if sub.len() > 0 && trimmed(sub).len() == 0 {
                                        Err(PackageErrorView::EmptyScriptSubDir)
                                    } else {
                                        match rendered_dests(p.assets@, vars) {
                                            Err(e) => Err(PackageErrorView::Template(e)),
                                            Ok(ds) => Ok((id, name, info, file, sub, ds)),
                                        }
                                    },
                                },
                            },
                        }
                    },
                },
            },
        },
    }
}

pub open spec fn asset_dests(assets: Seq<ResolvedPackageAsset>) -> Seq<Seq<char>> {
    assets.map_values(|a: ResolvedPackageAsset| a.dest@)
}

pub open spec fn asset_srcs(assets: Seq<ResolvedPackageAsset>) -> Seq<Seq<char>> {
    assets.map_values(|a: ResolvedPackageAsset| a.src@)
}

fn copy_string(s: &String) -> (r: String)
    ensures
        r@ == s@,
{
    s.clone()
}

fn copy_opt_string(o: &Option<String>) -> (r: Option<String>)
    ensures
        opt_str(r) == opt_str(*o),
{
    match o {
        Some(s) => Some(s.clone()),
        None => None,
    }
}

/// The value of a setting that is given and not blank.
fn present_value(o: &Option<String>) -> (r: Option<String>)
    ensures
        opt_str(r) == present(*o),
{
    match o {
        Some(s) => if trim(&to_chars(s.as_str())).len() == 0 {
            None
        } else {
            Some(s.clone())
        },
        None => None,
    }
}

fn is_blank(s: &String) -> (r: bool)
    ensures
        r == (trimmed(s@).len() == 0),
{
    trim(&to_chars(s.as_str())).len() == 0
}

impl ResolvedConfig {
    /// The package settings with their templates rendered. Fails when there is
    /// no package section, when `id`, `name` or `information` is missing or
    /// blank, when a template cannot be rendered, when the information or file
    /// name renders blank, or when the script directory renders as white space
    /// only. An empty script directory is accepted: scripts then go directly
    /// under `Script/`.
    pub fn package_for_pack(&self) -> (r: Result<PackConfig, PackageError>)
        ensures
            match r {
                Ok(pc) => {
                    let p = self.package.unwrap();
                    &&& self.package is Some
                    &&& package_texts(self.project.variables@, self.package) == Ok::<PackageTexts, PackageErrorView>(
                        (
                            pc.id@,
                            pc.name@,
                            pc.information@,
                            pc.file_name@,
                            pc.script_sub_dir@,
                            asset_dests(pc.assets@),
                        ),
                    )
                    &&& opt_str(pc.version) == opt_str(p.version)
                    &&& pc.uninstall_sub_folder_file == p.uninstall_sub_folder_file
                    &&& pc.out_dir@ == p.out_dir@
                    &&& message_view(pc.message) == message_view(p.message)
                    &&& asset_srcs(pc.assets@) == asset_srcs(p.assets@)
                },
                Err(e) => package_texts(self.project.variables@, self.package) == Err::<PackageTexts, PackageErrorView>(e@),
            },
    {
        let p = match &self.package {
            Some(p) => p,
            None => {
                return Err(PackageError::MissingPackage);
            },
        };
        let id = match present_value(&p.id) {
            Some(v) => v,
            None => {
                return Err(PackageError::MissingId);
            },
        };
        let name = match present_value(&p.name) {
            Some(v) => v,
            None => {
                return Err(PackageError::MissingName);
            },
        };
        let information_template = match present_value(&p.information) {
            Some(v) => v,
            None => {
                return Err(PackageError::MissingInformation);
            },
        };
        let version: Option<&str> = match &p.version {
            Some(v) => Some(v.as_str()),
            None => None,
        };
        let vars = build_package_template_vars(&self.project.variables, id.as_str(), name.as_str(), version);
        let file_name_template = match &p.file_name {
            Some(f) => f.clone(),
            None => if p.version.is_some() {
                String::from_str("{id}-v{version}.au2pkg.zip")
            } else {
                String::from_str("{id}.au2pkg.zip")
            },
        };
        let script_sub_dir_template = match &p.script_sub_dir {
            Some(d) => d.clone(),
            None => String::from_str("{id}"),
        };
        let information = match render_package_template(information_template.as_str(), &vars) {
            Ok(v) => v,
            Err(e) => {
                return Err(PackageError::Template(e));
            },
        };
        let file_name = match render_package_template(file_name_template.as_str(), &vars) {
            Ok(v) => v,
            Err(e) => {
                return Err(PackageError::Template(e));
            },
        };
        let script_sub_dir = match render_package_template(script_sub_dir_template.as_str(), &vars) {
            Ok(v) => v,
            Err(e) => {
                return Err(PackageError::Template(e));
            },
        };
        if is_blank(&information) {
            return Err(PackageError::EmptyInformation);
        }
        if is_blank(&file_name) {
            return Err(PackageError::EmptyFileName);
        }
        let sub_chars = to_chars(script_sub_dir.as_str());
        if sub_chars.len() > 0 && trim(&sub_chars).len() == 0 {
            return Err(PackageError::EmptyScriptSubDir);
        }
        let ghost vars_v = vars@;
        let mut assets: Vec<ResolvedPackageAsset> = Vec::new();
        let mut i: usize = 0;
        assert(p.assets@.take(0) == Seq::<ResolvedPackageAsset>::empty());
        assert(asset_dests(assets@) == Seq::<Seq<char>>::empty());
        assert(asset_srcs(assets@) == Seq::<Seq<char>>::empty());
        assert(asset_srcs(p.assets@.take(0)) == Seq::<Seq<char>>::empty());
        while i < p.assets.len()
            invariant
                i <= p.assets.len(),
                vars@ == vars_v,
                self.package == Some(*p),
                package_texts(self.project.variables@, self.package) == match rendered_dests(p.assets@, vars_v) {
                    Err(e) => Err(PackageErrorView::Template(e)),
                    Ok(ds) => Ok::<PackageTexts, PackageErrorView>((id@, name@, information@, file_name@, script_sub_dir@, ds)),
                },
                assets@.len() == i,
                rendered_dests(p.assets@.take(i as int), vars_v) == Ok::<Seq<Seq<char>>, TemplateErrorView>(asset_dests(assets@)),
                asset_srcs(assets@) == asset_srcs(p.assets@.take(i as int)),
            decreases p.assets.len() - i,
        {
            let ghost before = assets@;
            assert(p.assets@.take(i + 1).drop_last() == p.assets@.take(i as int));
            assert(p.assets@.take(i + 1).last() == p.assets@[i as int]);
            let dest = match render_package_template(p.assets[i].dest.as_str(), &vars) {
                Ok(d) => d,
                Err(e) => {
                    proof {
                        lemma_dests_prefix_err(p.assets@, i + 1, vars_v);
                    }
                    return Err(PackageError::Template(e));
                },
            };
            let asset = ResolvedPackageAsset { src: copy_string(&p.assets[i].src), dest };
            assets.push(asset);
            assert(asset_dests(assets@) == asset_dests(before).push(asset.dest@));
            assert(asset_srcs(assets@) == asset_srcs(before).push(asset.src@));
            assert(asset_srcs(p.assets@.take(i + 1)) == asset_srcs(p.assets@.take(i as int)).push(
                p.assets@[i as int].src@,
            ));
            i += 1;
        }
        assert(p.assets@.take(p.assets.len() as int) == p.assets@);
        let message = match &p.message {
            Some(ResolvedPackageMessage::File(f)) => Some(ResolvedPackageMessage::File(f.clone())),
            Some(ResolvedPackageMessage::Text(t)) => Some(ResolvedPackageMessage::Text(t.clone())),
            None => None,
        };
        Ok(
            PackConfig {
                id,
                name,
                information,
                version: copy_opt_string(&p.version),
                uninstall_sub_folder_file: p.uninstall_sub_folder_file,
                out_dir: copy_string(&p.out_dir),
                file_name,
                script_sub_dir,
                message,
                assets,
            },
        )
    }

    /// The directory where built scripts are written.
    pub fn build_out_dir(&self) -> (r: String)
        ensures
            r@ == self.build.out_dir@,
    {
        self.build.out_dir.clone()
    }

    /// The directory where scripts are installed.
    pub fn install_out_dir(&self) -> (r: String)
        ensures
            r@ == self.install.out_dir@,
    {
        self.install.out_dir.clone()
    }
}


// ---------------------------------------------------------------------------
// Resolving
// ---------------------------------------------------------------------------
/// What `std::path::Path::parent` gives for a path, as text: the path
/// without its last component, or nothing for a root or an empty path. How a
/// path splits into components is fixed for a given build target (on Windows
/// `\` separates components too), so the result is a function of the path.
pub uninterp spec fn path_parent(p: Seq<char>) -> Option<Seq<char>>;

/// What `std::path::Path::join` gives for two paths, as text: `part` appended
/// to `base` with a separator, or `part` alone when it is absolute. The
/// separator and what counts as absolute are fixed for a given build target,
/// so the result is a function of the two paths.
pub uninterp spec fn path_joined(base: Seq<char>, part: Seq<char>) -> Seq<char>;

/// Calls `std::path::Path::parent` on `path` and converts the result to
/// text; the contract claims only that it is [`path_parent`] of `path`.
#[verifier::external_body]
fn parent_dir(path: &str) -> (r: Option<String>)
    ensures
        opt_str(r) == path_parent(path@),
{
    match std::path::Path::new(path).parent() {
        Some(p) => Some(p.to_string_lossy().into_owned()),
        None => None,
    }
}

/// Calls `std::path::Path::join` on `base` and `part` and converts the result
/// to text; the contract claims only that it is [`path_joined`] of the two.
#[verifier::external_body]
fn join_path(base: &str, part: &str) -> (r: String)
    ensures
        r@ == path_joined(base@, part@),
{
    std::path::Path::new(base).join(part).to_string_lossy().into_owned()
}

pub open spec fn vars_or_empty(v: Option<VarMap>) -> Map<Seq<char>, Seq<char>> {
    match v {
        Some(m) => m@,
        None => Map::empty(),
    }
}

/// The directory that relative paths of the configuration are taken from:
/// the parent of the configuration file, or `.` when it has none.
pub open spec fn config_dir_of(config_path: Seq<char>) -> Seq<char> {
    match path_parent(config_path) {
        Some(d) => d,
        None => "."@,
    }
}

/// The install directory used when none is given:
/// `<program_data>/aviutl2/Script`, `program_data` being `C:\ProgramData`
/// when not given.
pub open spec fn default_install_dir(program_data: Option<Seq<char>>) -> Seq<char> {
    let pd = match program_data {
        Some(p) => p,
        None => "C:\\ProgramData"@,
    };
    path_joined(path_joined(pd, "aviutl2"@), "Script"@)
}

/// A resolved script source: its path joined to `dir`, its label, and its
/// variables (none given meaning none).
pub open spec fn source_resolved(raw: RawScriptSource, dir: Seq<char>, r: ResolvedScriptSource) -> bool {
    &&& r.path@ == path_joined(dir, raw.path@)
    &&& opt_str(r.label) == opt_str(raw.label)
    &&& r.variables@ == vars_or_empty(raw.variables)
}

/// A resolved script: its name and, in order, its resolved sources.
pub open spec fn script_resolved(raw: RawScript, dir: Seq<char>, r: ResolvedScript) -> bool {
    &&& r.name@ == raw.name@
    &&& r.sources@.len() == raw.sources@.len()
    &&& forall|j: int|
        0 <= j < raw.sources@.len() ==> source_resolved(raw.sources@[j], dir, #[trigger] r.sources@[j])
}

/// A resolved package section: its texts as given, `false` for an unset
/// `uninstall_sub_folder_file`, its output directory joined to `dir` (the
/// build directory `build_out` when not given), a message file joined to
/// `dir` or the inline text, and each asset with its source joined to `dir`
/// and its destination as given.
pub open spec fn package_resolved(
    raw: RawPackage,
    dir: Seq<char>,
    build_out: Seq<char>,
    r: ResolvedPackage,
) -> bool {
    &&& opt_str(r.id) == opt_str(raw.id)
    &&& opt_str(r.name) == opt_str(raw.name)
    &&& opt_str(r.information) == opt_str(raw.information)
    &&& opt_str(r.version) == opt_str(raw.version)
    &&& r.uninstall_sub_folder_file == match raw.uninstall_sub_folder_file {
        Some(b) => b,
        None => false,
    }
    &&& r.out_dir@ == match raw.out_dir {
        Some(o) => path_joined(dir, o@),
        None => build_out,
    }
    &&& opt_str(r.file_name) == opt_str(raw.file_name)
    &&& opt_str(r.script_sub_dir) == opt_str(raw.script_sub_dir)
    &&& match (raw.message, r.message) {
        (None, None) => true,
        (Some(RawPackageMessage::File { file }), Some(ResolvedPackageMessage::File(f))) => f@
            == path_joined(dir, file@),
        (Some(RawPackageMessage::Text { text }), Some(ResolvedPackageMessage::Text(t))) => t@
            == text@,
        _ => false,
    }
    &&& r.assets@.len() == raw.assets@.len()
    &&& forall|j: int|
        0 <= j < raw.assets@.len() ==> (#[trigger] r.assets@[j]).dest@ == raw.assets@[j].dest@
            && r.assets@[j].src@ == path_joined(dir, raw.assets@[j].src@)
}

/// The build output directory as written, `build` when not given.
pub open spec fn raw_build_out(raw: RawConfig) -> Seq<char> {
    match raw.build {
        Some(b) => match b.out_dir {
            Some(d) => d@,
            None => "build"@,
        },
        None => "build"@,
    }
}

/// The embed search directories as written, none when not given.
pub open spec fn raw_search_dirs(raw: RawConfig) -> Seq<String> {
    match raw.build {
        Some(b) => match b.embed_search_dirs {
            Some(d) => d@,
            None => Seq::empty(),
        },
        None => Seq::empty(),
    }
}

/// The resolved configuration of `raw`, read from `config_path`. Paths given
/// in the file are joined to the configuration file's directory (see
/// [`config_dir_of`]), except the install directory, which is taken as
/// written; without one it is [`default_install_dir`].
pub open spec fn config_resolved(
    raw: RawConfig,
    config_path: Seq<char>,
    program_data: Option<Seq<char>>,
    r: ResolvedConfig,
) -> bool {
    let dir = config_dir_of(config_path);
    let dirs = raw_search_dirs(raw);
    &&& r.config_dir@ == dir
    &&& r.project.variables@ == match raw.project {
        Some(p) => vars_or_empty(p.variables),
        None => Map::empty(),
    }
    &&& r.build.out_dir@ == path_joined(dir, raw_build_out(raw))
    &&& r.build.embed_search_dirs@.len() == dirs.len()
    &&& forall|j: int|
        0 <= j < dirs.len() ==> (#[trigger] r.build.embed_search_dirs@[j])@ == path_joined(dir, dirs[j]@)
    &&& r.install.out_dir@ == match raw.install {
        Some(i) => match i.out_dir {
            Some(o) => o@,
            None => default_install_dir(program_data),
        },
        None => default_install_dir(program_data),
    }
    &&& match (raw.package, r.package) {
        (None, None) => true,
        (Some(rp), Some(p)) => package_resolved(rp, dir, r.build.out_dir@, p),
        _ => false,
    }
    &&& r.scripts@.len() == raw.scripts@.len()
    &&& forall|j: int|
        0 <= j < raw.scripts@.len() ==> script_resolved(raw.scripts@[j], dir, #[trigger] r.scripts@[j])
}

fn resolve_source(src: RawScriptSource, config_dir: &str) -> (r: ResolvedScriptSource)
    ensures
        source_resolved(src, config_dir@, r),
{
    let path = join_path(config_dir, src.path.as_str());
    let variables = match src.variables {
        Some(v) => v,
        None => VarMap::new(),
    };
    ResolvedScriptSource { path, label: src.label, variables }
}

fn resolve_script(script: RawScript, config_dir: &str) -> (r: ResolvedScript)
    ensures
        script_resolved(script, config_dir@, r),
{
    let raw_sources = script.sources;
    let mut sources: Vec<ResolvedScriptSource> = Vec::new();
    let mut rest = raw_sources;
    let ghost all = rest@;
    let mut k: usize = 0;
    assert(all.subrange(0, all.len() as int) == all);
    assert(all.len() == rest.len());
    while rest.len() > 0
        invariant
            k + rest@.len() == all.len(),
            all.len() <= usize::MAX,
            rest@ == all.subrange(k as int, all.len() as int),
            sources@.len() == k,
            forall|j: int| 0 <= j < k ==> source_resolved(all[j], config_dir@, #[trigger] sources@[j]),
        decreases rest.len(),
    {
        let src = rest.remove(0);
        assert(rest@ == all.subrange(k + 1, all.len() as int));
        assert(src == all[k as int]);
        sources.push(resolve_source(src, config_dir));
        k += 1;
    }
    ResolvedScript { name: script.name, sources }
}

impl RawConfig {
    /// Fills in defaults and joins the directories given in the file to the
    /// directory of `config_path` (or `.`). Without an install directory, the
    /// default is `<program_data>/aviutl2/Script`, `program_data` being
    /// `C:\ProgramData` when not given.
    pub fn resolve(self, config_path: &str, program_data: Option<String>) -> (r: ResolvedConfig)
        ensures
            config_resolved(self, config_path@, opt_str(program_data), r),
    {
        let config_dir = match parent_dir(config_path) {
            Some(d) => d,
            None => String::from_str("."),
        };
        let variables = match self.project {
            Some(p) => match p.variables {
                Some(v) => v,
                None => VarMap::new(),
            },
            None => VarMap::new(),
        };
        let project = ResolvedProject { variables };
        let (raw_out_dir, raw_search_dirs) = match self.build {
            Some(b) => (b.out_dir, b.embed_search_dirs),
            None => (None, None),
        };
        let build_out = match raw_out_dir {
            Some(d) => join_path(config_dir.as_str(), d.as_str()),
            None => join_path(config_dir.as_str(), "build"),
        };
        let mut embed_search_dirs: Vec<String> = Vec::new();
        if let Some(dirs) = raw_search_dirs {
            let mut i: usize = 0;
            while i < dirs.len()
                invariant
                    i <= dirs.len(),
                    embed_search_dirs@.len() == i,
                    forall|j: int|
                        0 <= j < i ==> (#[trigger] embed_search_dirs@[j])@ == path_joined(config_dir@, dirs@[j]@),
                decreases dirs.len() - i,
            {
                embed_search_dirs.push(join_path(config_dir.as_str(), dirs[i].as_str()));
                i += 1;
            }
        }
        let build = ResolvedBuild { out_dir: build_out, embed_search_dirs };
        let raw_install_dir = match self.install {
            Some(i) => i.out_dir,
            None => None,
        };
        let install_out = match raw_install_dir {
            Some(d) => d,
            None => {
                let program_data = match program_data {
                    Some(p) => p,
                    None => String::from_str("C:\\ProgramData"),
                };
                let aviutl = join_path(program_data.as_str(), "aviutl2");
                join_path(aviutl.as_str(), "Script")
            },
        };
        let install = ResolvedInstall { out_dir: install_out };
        let package = match self.package {
            None => None,
            Some(p) => {
                let out_dir = match &p.out_dir {
                    Some(d) => join_path(config_dir.as_str(), d.as_str()),
                    None => build.out_dir.clone(),
                };
                let message = match p.message {
                    Some(RawPackageMessage::File { file }) => Some(
                        ResolvedPackageMessage::File(join_path(config_dir.as_str(), file.as_str())),
                    ),
                    Some(RawPackageMessage::Text { text }) => Some(ResolvedPackageMessage::Text(text)),
                    None => None,
                };
                let mut assets: Vec<ResolvedPackageAsset> = Vec::new();
                let mut i: usize = 0;
                while i < p.assets.len()
                    invariant
                        i <= p.assets.len(),
                        assets@.len() == i,
                        forall|j: int|
                            0 <= j < i ==> (#[trigger] assets@[j]).dest@ == p.assets@[j].dest@
                                && assets@[j].src@ == path_joined(config_dir@, p.assets@[j].src@),
                    decreases p.assets.len() - i,
                {
                    let a = ResolvedPackageAsset {
                        src: join_path(config_dir.as_str(), p.assets[i].src.as_str()),
                        dest: p.assets[i].dest.clone(),
                    };
                    assets.push(a);
                    i += 1;
                }
                Some(
                    ResolvedPackage {
                        id: p.id,
                        name: p.name,
                        information: p.information,
                        version: p.version,
                        uninstall_sub_folder_file: match p.uninstall_sub_folder_file {
                            Some(b) => b,
                            None => false,
                        },
                        out_dir,
                        file_name: p.file_name,
                        script_sub_dir: p.script_sub_dir,
                        message,
                        assets,
                    },
                )
            },
        };
        let raw_scripts = self.scripts;
        let ghost all = raw_scripts@;
        let mut rest = raw_scripts;
        let mut scripts: Vec<ResolvedScript> = Vec::new();
        let mut k: usize = 0;
        assert(all.subrange(0, all.len() as int) == all);
        assert(all.len() == rest.len());
        while rest.len() > 0
            invariant
                k + rest@.len() == all.len(),
                all.len() <= usize::MAX,
                rest@ == all.subrange(k as int, all.len() as int),
                scripts@.len() == k,
                forall|j: int| 0 <= j < k ==> script_resolved(all[j], config_dir@, #[trigger] scripts@[j]),
            decreases rest.len(),
        {
            let script = rest.remove(0);
            assert(rest@ == all.subrange(k + 1, all.len() as int));
            assert(script == all[k as int]);
            scripts.push(resolve_script(script, config_dir.as_str()));
            k += 1;
        }
        ResolvedConfig { project, build, install, package, scripts, config_dir }
    }
}

} // verus!
