use aulua::config::VarMap;
use aulua::script_build::{concat_sources, expand_variables, source_variables};

fn vars(pairs: &[(&str, &str)]) -> VarMap {
    let mut m = VarMap::new();
    for (k, v) in pairs {
        m.insert(k.to_string(), v.to_string());
    }
    m
}

#[test]
fn variables_are_expanded() {
    let v = vars(&[("HOGE", "ほげ"), ("FUGA", "フガ"), ("PACKAGE_VERSION", "1.0.0")]);
    let (out, undefined) = expand_variables(
        "-- HOGE: ${HOGE}\n-- FUGA: ${FUGA}\n-- PACKAGE_VERSION: ${PACKAGE_VERSION}\n",
        &v,
    );
    assert_eq!(out, "-- HOGE: ほげ\n-- FUGA: フガ\n-- PACKAGE_VERSION: 1.0.0\n");
    assert!(undefined.is_empty());
}

#[test]
fn undefined_and_malformed_references() {
    let v = vars(&[("A", "1")]);
    let (out, undefined) = expand_variables("${A}${B}${}${A-}$${A}${A", &v);
    assert_eq!(out, "1${B}${}${A-}$1${A");
    assert_eq!(undefined, vec!["B".to_string()]);
}

#[test]
fn source_variables_override_project_variables() {
    let project = vars(&[("HOGE", "ほげ"), ("FUGA", "ふが")]);
    let source = vars(&[("FUGA", "フガ")]);
    let v = source_variables(&None, &project, &source);
    assert_eq!(v.get("HOGE"), Some(&"ほげ".to_string()));
    assert_eq!(v.get("FUGA"), Some(&"フガ".to_string()));
    assert_eq!(v.get("PACKAGE_ID"), None);
}

#[test]
fn sources_are_concatenated_with_labels() {
    let out = concat_sources(&[
        (Some("EffectA".to_string()), "-- EffectA.in.anm2\n".to_string()),
        (Some("EffectB".to_string()), "-- EffectB.in.anm2\n".to_string()),
    ]);
    assert_eq!(out, "@EffectA\n-- EffectA.in.anm2\n\n@EffectB\n-- EffectB.in.anm2\n\n");
    assert_eq!(concat_sources(&[(None, "x".to_string())]), "x\n");
    assert_eq!(concat_sources(&[]), "");
}
