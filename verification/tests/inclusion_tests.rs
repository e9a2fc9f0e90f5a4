use aulua::inclusion::{classify_include_line, leave_visit, plan_includes, record_visit, IncludeLine, IncludePiece};
use aulua::text_utils::normalize_newlines;

#[test]
fn classify_lines() {
    assert_eq!(classify_include_line("print(1)"), IncludeLine::Text);
    assert_eq!(
        classify_include_line("  ---$include \"shader.hlsl\"  "),
        IncludeLine::Include("shader.hlsl".to_string())
    );
    assert_eq!(classify_include_line("---$include\"a b\""), IncludeLine::Include("a b".to_string()));
    assert_eq!(classify_include_line("---$include shader.hlsl"), IncludeLine::Malformed);
    assert_eq!(classify_include_line("---$include \""), IncludeLine::Malformed);
    assert_eq!(classify_include_line("---$include \"\""), IncludeLine::Include(String::new()));
}

#[test]
fn plan_stops_at_first_malformed_directive() {
    let plan = plan_includes("a\n---$include \"x.lua\"\nb\n---$include y\nc");
    assert_eq!(
        plan.pieces,
        vec![
            IncludePiece::Text("a".to_string()),
            IncludePiece::Include { path: "x.lua".to_string(), line_number: 2 },
            IncludePiece::Text("b".to_string()),
        ]
    );
    assert_eq!(plan.malformed_line, Some(4));
    let plan = plan_includes("--[[pixelshader@psmain:\n---$include \"s.hlsl\"\n]]");
    assert_eq!(plan.malformed_line, None);
    assert_eq!(plan.pieces.len(), 3);
}

#[test]
fn newlines_are_normalized() {
    assert_eq!(normalize_newlines("\r,\n,\r\n"), "\n,\n,\n");
    assert_eq!(normalize_newlines("a\r\r\nb"), "a\n\nb");
    assert_eq!(normalize_newlines(""), "");
}

#[test]
fn record_visit_refuses_a_file_on_the_chain() {
    let mut visited = Vec::new();
    assert!(record_visit(&mut visited, "/src/a.lua"));
    assert!(record_visit(&mut visited, "/src/b.lua"));
    assert!(!record_visit(&mut visited, "/src/a.lua"));
    assert_eq!(visited, vec!["/src/a.lua".to_string(), "/src/b.lua".to_string()]);
}

#[test]
fn finished_file_may_be_included_again() {
    let mut chain = Vec::new();
    assert!(record_visit(&mut chain, "/src/main.lua"));
    assert!(record_visit(&mut chain, "/src/a.hlsl"));
    assert!(leave_visit(&mut chain, "/src/a.hlsl"));
    assert!(record_visit(&mut chain, "/src/a.hlsl"));
    assert!(leave_visit(&mut chain, "/src/a.hlsl"));
    assert_eq!(chain, vec!["/src/main.lua".to_string()]);
    // Leaving a file that does not end the chain changes nothing.
    assert!(!leave_visit(&mut chain, "/src/a.hlsl"));
    // A file that would include itself is still refused.
    assert!(!record_visit(&mut chain, "/src/main.lua"));
    assert_eq!(chain, vec!["/src/main.lua".to_string()]);
}
