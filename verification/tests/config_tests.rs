use aulua::config::{
    build_package_template_vars, render_package_template, PackageError, RawBuild, RawConfig,
    RawPackage, RawPackageAsset, RawPackageMessage, RawProject, RawScript, RawScriptSource,
    ResolvedPackageMessage, TemplateError, VarMap,
};

fn vars(pairs: &[(&str, &str)]) -> VarMap {
    let mut m = VarMap::new();
    for (k, v) in pairs {
        m.insert(k.to_string(), v.to_string());
    }
    m
}

#[test]
fn test_render_package_template() {
    let input = "{id}-v{version}.au2pkg.zip";
    let vars = vars(&[("id", "SamplePackage"), ("version", "1.0.0")]);
    let expected = "SamplePackage-v1.0.0.au2pkg.zip";

    let output = render_package_template(input, &vars).unwrap();
    assert_eq!(output, expected);
}

#[test]
fn test_resolve_embed_search_dirs() {
    let raw = RawConfig {
        project: None,
        build: Some(RawBuild {
            out_dir: None,
            embed_search_dirs: Some(vec!["lib".to_string(), "modules".to_string()]),
        }),
        install: None,
        package: None,
        scripts: vec![],
    };

    let config_path = "/tmp/project/aulua.yaml";
    let resolved = raw.resolve(config_path, None);

    assert_eq!(
        resolved.build.embed_search_dirs,
        vec!["/tmp/project/lib".to_string(), "/tmp/project/modules".to_string()]
    );
}

// --- further cases ---

#[test]
fn render_package_template_errors() {
    let v = vars(&[("id", "X")]);
    assert_eq!(render_package_template("a{id", &v), Err(TemplateError::Unclosed));
    assert_eq!(render_package_template("a{}b", &v), Err(TemplateError::EmptyPlaceholder));
    assert_eq!(
        render_package_template("{nope}", &v),
        Err(TemplateError::Undefined("nope".to_string()))
    );
    // The first problem from the left is reported.
    assert_eq!(render_package_template("{x}{", &v), Err(TemplateError::Undefined("x".to_string())));
    assert_eq!(render_package_template("no braces", &v).unwrap(), "no braces");
    assert_eq!(render_package_template("}{id}}", &v).unwrap(), "}X}");
    assert_eq!(render_package_template("", &v).unwrap(), "");
}

#[test]
fn later_bindings_win() {
    let mut v = vars(&[("A", "1")]);
    v.insert("A".to_string(), "2".to_string());
    assert_eq!(v.get("A"), Some(&"2".to_string()));
    assert_eq!(v.get("B"), None);
    let c = v.copy();
    assert_eq!(c.get("A"), Some(&"2".to_string()));
}

#[test]
fn package_vars_override_project_vars() {
    let project = vars(&[("id", "old"), ("AUTHOR", "me")]);
    let v = build_package_template_vars(&project, "pkg", "Name", None);
    assert_eq!(v.get("id"), Some(&"pkg".to_string()));
    assert_eq!(v.get("name"), Some(&"Name".to_string()));
    assert_eq!(v.get("AUTHOR"), Some(&"me".to_string()));
    assert_eq!(v.get("version"), None);
    let v = build_package_template_vars(&project, "pkg", "Name", Some("1.0"));
    assert_eq!(v.get("version"), Some(&"1.0".to_string()));
}

fn raw_package() -> RawPackage {
    RawPackage {
        id: Some("karoterra.example".to_string()),
        name: Some("Example".to_string()),
        information: Some("Example {AUTHOR} v{version}".to_string()),
        version: Some("1.2.3".to_string()),
        uninstall_sub_folder_file: None,
        out_dir: None,
        file_name: None,
        script_sub_dir: None,
        message: Some(RawPackageMessage::Text { text: "hello".to_string() }),
        assets: vec![RawPackageAsset {
            src: "docs/README.md".to_string(),
            dest: "Script/{id}/docs/README.md".to_string(),
        }],
    }
}

fn raw_config(package: Option<RawPackage>) -> RawConfig {
    RawConfig {
        project: Some(RawProject { variables: Some(vars(&[("AUTHOR", "karoterra")])) }),
        build: None,
        install: None,
        package,
        scripts: vec![RawScript {
            name: "main.anm2".to_string(),
            sources: vec![RawScriptSource {
                path: "src/main.in.anm2".to_string(),
                label: Some("Main".to_string()),
                variables: None,
            }],
        }],
    }
}

#[test]
fn package_for_pack_renders_templates_and_defaults() {
    let config = raw_config(Some(raw_package())).resolve("/tmp/p/aulua.yaml", None);
    let pack = config.package_for_pack().unwrap();
    assert_eq!(pack.id, "karoterra.example");
    assert_eq!(pack.name, "Example");
    assert_eq!(pack.information, "Example karoterra v1.2.3");
    assert_eq!(pack.file_name, "karoterra.example-v1.2.3.au2pkg.zip");
    assert_eq!(pack.script_sub_dir, "karoterra.example");
    assert!(!pack.uninstall_sub_folder_file);
    assert_eq!(pack.assets.len(), 1);
    assert_eq!(pack.assets[0].dest, "Script/karoterra.example/docs/README.md");
    assert_eq!(pack.assets[0].src, "/tmp/p/docs/README.md");
    assert_eq!(pack.out_dir, "/tmp/p/build");
    match pack.message {
        Some(ResolvedPackageMessage::Text(t)) => assert_eq!(t, "hello"),
        _ => panic!("expected an inline message"),
    }
}

#[test]
fn package_for_pack_without_version_uses_short_file_name() {
    let mut p = raw_package();
    p.version = None;
    p.information = Some("info".to_string());
    let config = raw_config(Some(p)).resolve("aulua.yaml", None);
    let pack = config.package_for_pack().unwrap();
    assert_eq!(pack.file_name, "karoterra.example.au2pkg.zip");
}

#[test]
fn package_for_pack_errors() {
    let config = raw_config(None).resolve("aulua.yaml", None);
    assert_eq!(config.package_for_pack().unwrap_err(), PackageError::MissingPackage);

    let mut p = raw_package();
    p.id = Some("  ".to_string());
    let config = raw_config(Some(p)).resolve("aulua.yaml", None);
    assert_eq!(config.package_for_pack().unwrap_err(), PackageError::MissingId);

    let mut p = raw_package();
    p.name = None;
    let config = raw_config(Some(p)).resolve("aulua.yaml", None);
    assert_eq!(config.package_for_pack().unwrap_err(), PackageError::MissingName);

    let mut p = raw_package();
    p.information = None;
    let config = raw_config(Some(p)).resolve("aulua.yaml", None);
    assert_eq!(config.package_for_pack().unwrap_err(), PackageError::MissingInformation);

    let mut p = raw_package();
    p.version = None;
    let config = raw_config(Some(p)).resolve("aulua.yaml", None);
    assert_eq!(
        config.package_for_pack().unwrap_err(),
        PackageError::Template(TemplateError::Undefined("version".to_string()))
    );

    let mut p = raw_package();
    p.file_name = Some("{AUTHOR".to_string());
    let config = raw_config(Some(p)).resolve("aulua.yaml", None);
    assert_eq!(config.package_for_pack().unwrap_err(), PackageError::Template(TemplateError::Unclosed));

    let mut p = raw_package();
    p.script_sub_dir = Some(" ".to_string());
    let config = raw_config(Some(p)).resolve("aulua.yaml", None);
    assert_eq!(config.package_for_pack().unwrap_err(), PackageError::EmptyScriptSubDir);

    let mut p = raw_package();
    p.file_name = Some(" ".to_string());
    let config = raw_config(Some(p)).resolve("aulua.yaml", None);
    assert_eq!(config.package_for_pack().unwrap_err(), PackageError::EmptyFileName);

    let mut p = raw_package();
    p.assets[0].dest = "{}".to_string();
    let config = raw_config(Some(p)).resolve("aulua.yaml", None);
    assert_eq!(
        config.package_for_pack().unwrap_err(),
        PackageError::Template(TemplateError::EmptyPlaceholder)
    );
}

#[test]
fn package_for_pack_information_rendering_blank() {
    let mut p = raw_package();
    p.information = Some("{EMPTY}".to_string());
    let mut config = raw_config(Some(p)).resolve("aulua.yaml", None);
    config.project.variables.insert("EMPTY".to_string(), " ".to_string());
    assert_eq!(config.package_for_pack().unwrap_err(), PackageError::EmptyInformation);
}

#[test]
fn resolve_fills_defaults() {
    let mut p = raw_package();
    p.uninstall_sub_folder_file = Some(true);
    p.out_dir = Some("dist".to_string());
    p.message = Some(RawPackageMessage::File { file: "msg.txt".to_string() });
    let mut raw = raw_config(Some(p));
    raw.install = Some(aulua::config::RawInstall { out_dir: Some("D:\\Scripts".to_string()) });
    let c = raw.resolve("/x/y/aulua.yaml", None);
    assert_eq!(c.config_dir, "/x/y");
    assert_eq!(c.build_out_dir(), "/x/y/build");
    assert_eq!(c.install_out_dir(), "D:\\Scripts");
    assert_eq!(c.project.variables.get("AUTHOR"), Some(&"karoterra".to_string()));
    let pkg = c.package.as_ref().unwrap();
    assert!(pkg.uninstall_sub_folder_file);
    assert_eq!(pkg.out_dir, "/x/y/dist");
    match &pkg.message {
        Some(ResolvedPackageMessage::File(f)) => assert_eq!(f, "/x/y/msg.txt"),
        _ => panic!("expected a message file"),
    }
    assert_eq!(c.scripts.len(), 1);
    assert_eq!(c.scripts[0].name, "main.anm2");
    assert_eq!(c.scripts[0].sources[0].path, "/x/y/src/main.in.anm2");
    assert_eq!(c.scripts[0].sources[0].label, Some("Main".to_string()));
    assert_eq!(c.scripts[0].sources[0].variables.get("X"), None);
}

#[test]
fn resolve_default_install_dir() {
    let c = raw_config(None).resolve("aulua.yaml", Some("/pd".to_string()));
    assert_eq!(c.install_out_dir(), "/pd/aviutl2/Script");
    assert_eq!(c.build_out_dir(), "build");
}

#[test]
fn package_for_pack_accepts_empty_script_sub_dir() {
    let mut p = raw_package();
    p.id = Some("kr.cvs".to_string());
    p.name = Some("CVS".to_string());
    p.information = Some("CVS".to_string());
    p.version = None;
    p.script_sub_dir = Some("".to_string());
    p.assets = vec![];
    let config = raw_config(Some(p)).resolve("aulua.yaml", None);
    let pack = config.package_for_pack().unwrap();
    assert_eq!(pack.script_sub_dir, "");
    assert_eq!(pack.file_name, "kr.cvs.au2pkg.zip");
}

#[test]
fn resolve_package_out_dir_follows_build_out_dir() {
    let mut raw = raw_config(Some(raw_package()));
    raw.build = Some(RawBuild { out_dir: Some("out".to_string()), embed_search_dirs: None });
    let c = raw.resolve("/x/aulua.yaml", None);
    assert_eq!(c.build_out_dir(), "/x/out");
    assert_eq!(c.package.as_ref().unwrap().out_dir, "/x/out");
    assert_eq!(c.package.as_ref().unwrap().assets[0].src, "/x/docs/README.md");
    assert!(c.build.embed_search_dirs.is_empty());
    let expected_install = std::path::Path::new("C:\\ProgramData")
        .join("aviutl2")
        .join("Script")
        .to_string_lossy()
        .into_owned();
    assert_eq!(c.install_out_dir(), expected_install);
}
