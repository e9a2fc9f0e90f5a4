use aulua::ui_control::{
    apply_ui_blocks, parse_ui_blocks, try_apply_ui_blocks, try_parse_ui_blocks, UiControlBlock,
    UiControlKind, UiControlMeta,
};

#[test]
fn test_parse_ui_blocks_select() {
    let src = r#"
---$select:目
---通常=0
---ちょい閉じ=1
---半目=2
local eye = 1
"#;
    let blocks = parse_ui_blocks(src);
    assert_eq!(blocks.len(), 1);

    let block = &blocks[0];
    assert_eq!(block.kind, UiControlKind::Select);
    assert_eq!(block.label, "目");
    assert_eq!(block.var_name, "eye");
    assert_eq!(block.default_value, "1");
    assert_eq!(block.start_line, 1);
    assert_eq!(block.end_line, 6);

    if let Some(UiControlMeta::Select(options)) = &block.meta {
        assert_eq!(options.len(), 3);
        assert_eq!(options[0], ("通常".to_string(), "0".to_string()));
        assert_eq!(options[1], ("ちょい閉じ".to_string(), "1".to_string()));
        assert_eq!(options[2], ("半目".to_string(), "2".to_string()));
    } else {
        panic!("Exptected Select");
    }
}

#[test]
fn test_apply_ui_blocks_select() {
    let src = r#"
---$select:目
---通常=0
---ちょい閉じ=1
---半目=2
local eye = 1
"#;
    let blocks = parse_ui_blocks(src);
    let result = apply_ui_blocks(src, &blocks);

    let expected = "\n--select@eye:目=1,通常=0,ちょい閉じ=1,半目=2";
    assert_eq!(result, expected);
}

// --- further cases (taken from the documentation of each control) ---

fn build(src: &str) -> String {
    let blocks = parse_ui_blocks(src);
    apply_ui_blocks(src, &blocks)
}

#[test]
fn track_multi_line() {
    let src = "---$track:X速度\n---min=-10\n---max=10\n---step=0.01\nlocal vx = 0";
    assert_eq!(build(src), "--track@vx:X速度,-10,10,0,0.01");
}

#[test]
fn track_one_line() {
    let src = "---$track:X速度, min = -10, max = 10, step = 0.01\nlocal vx = 0";
    assert_eq!(build(src), "--track@vx:X速度,-10,10,0,0.01");
}

#[test]
fn track_defaults_and_errors() {
    assert_eq!(build("---$track:T\nlocal v = 5"), "--track@v:T,0,100,5");
    // A setting given twice, or an unknown key, leaves the lines as they are.
    let twice = "---$track:T\n---min=1\n---min=2\nlocal v = 5";
    assert_eq!(parse_ui_blocks(twice).len(), 0);
    assert_eq!(build(twice), twice);
    let unknown = "---$track:T, foo = 1\nlocal v = 5";
    assert_eq!(parse_ui_blocks(unknown).len(), 0);
    let empty_value = "---$track:T, min = \nlocal v = 5";
    assert_eq!(parse_ui_blocks(empty_value).len(), 0);
    let no_label = "---$track: , min = 1\nlocal v = 5";
    assert_eq!(parse_ui_blocks(no_label).len(), 0);
}

#[test]
fn checks_color_files_fonts() {
    let src = "---$check:重力\nlocal grav = 0\n---$check:速度\nlocal speed = false\n---$checksection:重力\nlocal grav = false";
    assert_eq!(
        build(src),
        "--check@grav:重力,0\n--check@speed:速度,false\n--checksection@grav:重力,false"
    );
    assert_eq!(build("---$color:図形色\nlocal col = 0xffffff"), "--color@col:図形色,0xffffff");
    assert_eq!(build("---$file:画像ファイル\nlocal path = \"\""), "--file@path:画像ファイル");
    assert_eq!(build("---$folder:フォルダ\nlocal path = \"\""), "--folder@path:フォルダ");
    assert_eq!(
        build("---$font:フォント名\nlocal font = \"MS UI Gothic\""),
        "--font@font:フォント名,MS UI Gothic"
    );
    assert_eq!(build("---$figure:先端図形\nlocal fig = \"三角形\""), "--figure@fig:先端図形,三角形");
}

#[test]
fn texts_and_values() {
    let src = "---$text:テキスト\nlocal txt = \"デフォルト文字\\n次の行\"\n---$string:文字列\nlocal str = \"デフォルト文字\"";
    assert_eq!(
        build(src),
        "--text@txt:テキスト,デフォルト文字\\n次の行\n--string@str:文字列,デフォルト文字"
    );
    let src = "---$value:数値\nlocal num = 0\n---$value:文字列\nlocal text = \"0\"\n---$value:配列\nlocal table = {0,0,0}";
    assert_eq!(
        build(src),
        "--value@num:数値,0\n--value@text:文字列,\"0\"\n--value@table:配列,{0,0,0}"
    );
}

#[test]
fn select_doc_example() {
    let src = "---$select:装飾タイプ\n---標準文字=0\n---影付き文字=1\nlocal deco = 0";
    assert_eq!(build(src), "--select@deco:装飾タイプ=0,標準文字=0,影付き文字=1");
}

#[test]
fn blank_line_after_assignment_is_absorbed() {
    let src = "a\n---$check:C\nlocal c = 1\n\nb";
    let blocks = parse_ui_blocks(src);
    assert_eq!(blocks.len(), 1);
    assert_eq!(blocks[0].start_line, 1);
    assert_eq!(blocks[0].end_line, 3);
    assert_eq!(build(src), "a\n--check@c:C,1\nb");
}

#[test]
fn comments_between_header_and_assignment() {
    let src = "---$check:C\n-- note\nlocal local c = 1 = 2";
    let blocks = parse_ui_blocks(src);
    assert_eq!(blocks[0].var_name, "c");
    assert_eq!(blocks[0].default_value, "1 = 2");
    assert_eq!(build(src), "--check@c:C,1 = 2");
}

#[test]
fn file_needs_assignment_next() {
    let src = "---$file:F\n-- x\nlocal p = 1";
    assert_eq!(parse_ui_blocks(src).len(), 0);
}

#[test]
fn scan_that_never_ends_is_reported() {
    // A control without extra data followed by an ordinary line.
    assert!(try_parse_ui_blocks("---$check:C\nprint(1)\nlocal c = 1").is_none());
    assert!(try_parse_ui_blocks("---$check:C\n\nlocal c = 1").is_none());
    assert_eq!(try_parse_ui_blocks("---$check:C").map(|b| b.len()), Some(0));
}

#[test]
fn apply_nothing_keeps_source() {
    let src = "x\n\ny\r\n";
    assert_eq!(apply_ui_blocks(src, &[]), src);
}

#[test]
fn apply_rejects_ranges_that_do_not_fit() {
    let block = UiControlBlock {
        kind: UiControlKind::Value,
        label: "L".to_string(),
        var_name: "v".to_string(),
        default_value: "1".to_string(),
        start_line: 1,
        end_line: 5,
        meta: None,
    };
    assert_eq!(try_apply_ui_blocks("a\nb", &[block.clone()]), None);
    let mut ok = block.clone();
    ok.end_line = 1;
    assert_eq!(try_apply_ui_blocks("a\nb", &[ok]), Some("a\n--value@v:L,1".to_string()));
    // An empty range (start one past end) inserts the line.
    let mut insert = block;
    insert.start_line = 1;
    insert.end_line = 0;
    assert_eq!(try_apply_ui_blocks("a\nb", &[insert]), Some("a\n--value@v:L,1\nb".to_string()));
}
