use aulua::embed::{
    find_require, get_embed_module_function_name, lua_module_file_name,
    process_embeds_with_modules, EmbedError, EmbedOutcome,
};
use regex::Regex;

const MODULE_RE: &str = r#"require\s*\(?\s*["']([^"']+)["']\s*\)?"#;

fn captures(line: &str) -> Option<(String, String)> {
    let chars: Vec<char> = line.chars().collect();
    find_require(&chars).map(|(m, n)| (m.into_iter().collect(), n.into_iter().collect()))
}

fn regex_captures(line: &str) -> Option<(String, String)> {
    let re = Regex::new(MODULE_RE).unwrap();
    re.captures(line).map(|c| (c[0].to_string(), c[1].to_string()))
}

#[test]
fn module_pattern_cases() {
    for (input, expected) in [
        ("require 'foo'", "foo"),
        ("require(\"bar\")", "bar"),
        ("require ( 'baz' )", "baz"),
        ("require\t('qux')", "qux"),
        ("require('foo.bar')", "foo.bar"),
        ("local x = require(\"foo\")", "foo"),
    ] {
        let (_, name) = captures(input).unwrap();
        assert_eq!(name, expected);
    }
}

#[test]
fn module_pattern_agrees_with_regex() {
    let lines = [
        "require 'foo'",
        "require(\"bar\")",
        "require ( 'baz' )  ",
        "require ( 'baz' )  x",
        "require\t('qux')",
        "local x = require(\"foo\") .. require('bar')",
        "local x = myrequire(\"foo\")",
        "require()",
        "require('')",
        "require('a\") y",
        "requirerequire('a')",
        "require ( ( 'a')",
        "require  \u{3000}'日本'\u{a0})",
        "no module here",
        "require",
        "require('unterminated",
        "require 'a' 'b'",
        "",
    ];
    for line in lines {
        assert_eq!(captures(line), regex_captures(line), "line: {line:?}");
    }
}

#[test]
fn function_and_file_names() {
    assert_eq!(get_embed_module_function_name(1), "__aulua_embed_1__()");
    assert_eq!(get_embed_module_function_name(120), "__aulua_embed_120__()");
    assert_eq!(get_embed_module_function_name(0), "__aulua_embed_0__()");
    assert_eq!(lua_module_file_name("foo.bar.baz"), "foo/bar/baz.lua");
    assert_eq!(lua_module_file_name("mylib"), "mylib.lua");
}

const MYLIB: &str = "local M = {}\nfunction M.add(x, y)\n    return x + y\nend\nreturn M\n";

#[test]
fn embed_documentation_example() {
    let src = "---$embed\nlocal mylib = require(\"mylib\")";
    assert_eq!(
        process_embeds_with_modules(src, &[]),
        EmbedOutcome::NeedModule("mylib".to_string())
    );
    let expected = "-- aulua embed: mylib\nlocal function __aulua_embed_1__()\nlocal M = {}\nfunction M.add(x, y)\n    return x + y\nend\nreturn M\n\nend\nlocal mylib = __aulua_embed_1__()";
    assert_eq!(
        process_embeds_with_modules(src, &[MYLIB.to_string()]),
        EmbedOutcome::Done(expected.to_string())
    );
}

#[test]
fn embed_repeat_and_later_requires() {
    let src = "---$embed\nlocal a = require('m')\n  ---$embed\nlocal b = require 'm'\nlocal c = require(\"m\")\nlocal d = require(\"other\")";
    let out = process_embeds_with_modules(src, &["X".to_string()]);
    assert_eq!(
        out,
        EmbedOutcome::Done(
            "-- aulua embed: m\nlocal function __aulua_embed_1__()\nX\nend\nlocal a = __aulua_embed_1__()\nlocal b = __aulua_embed_1__()\nlocal c = __aulua_embed_1__()\nlocal d = require(\"other\")".to_string()
        )
    );
}

#[test]
fn embed_two_modules_in_order() {
    let src = "---$embed\nlocal a = require('a')\n---$embed\nlocal b = require('b.c')";
    assert_eq!(
        process_embeds_with_modules(src, &["A".to_string()]),
        EmbedOutcome::NeedModule("b.c".to_string())
    );
    assert_eq!(
        process_embeds_with_modules(src, &["A".to_string(), "B".to_string()]),
        EmbedOutcome::Done(
            "-- aulua embed: a\nlocal function __aulua_embed_1__()\nA\nend\nlocal a = __aulua_embed_1__()\n-- aulua embed: b.c\nlocal function __aulua_embed_2__()\nB\nend\nlocal b = __aulua_embed_2__()".to_string()
        )
    );
}

#[test]
fn embed_errors() {
    assert_eq!(
        process_embeds_with_modules("---$embed\nprint(1)", &[]),
        EmbedOutcome::Failed(EmbedError::ExpectedRequire("print(1)".to_string()))
    );
    assert_eq!(
        process_embeds_with_modules("x\n---$embed", &[]),
        EmbedOutcome::Failed(EmbedError::NothingToEmbed)
    );
}

#[test]
fn text_without_directive_is_unchanged() {
    let src = "local a = require('a')\n\nprint(a)\n";
    assert_eq!(process_embeds_with_modules(src, &[]), EmbedOutcome::Done(src.to_string()));
}
