use aulua::codeblock_title::{escape_html, parse_codeblock_title_line, transform_markdown};

#[test]
fn parse_titled_codeblock() {
    let parsed = parse_codeblock_title_line("```rust:src/main.rs").unwrap();
    assert_eq!(parsed.language, "rust");
    assert_eq!(parsed.filename, "src/main.rs");
}

#[test]
fn parse_normal_codeblock_returns_none() {
    assert_eq!(parse_codeblock_title_line("```rust"), None);
    assert_eq!(parse_codeblock_title_line("```"), None);
}

#[test]
fn transform_titled_codeblock() {
    let input = r#"
```rust:src/main.rs
fn main() {}
```
"#;
    let expected = r#"
<div class="codeblock-with-title">
<div class="codeblock-title">src/main.rs</div>

```rust
fn main() {}
```

</div>
"#;
    let output = transform_markdown(input);
    assert_eq!(output, expected);
}

#[test]
fn transform_normal_codeblock_is_unchanged() {
    let input = r#"
```rust
fn main() {}
```
"#;
    let output = transform_markdown(input);
    assert_eq!(output, input);
}

// --- further cases ---

#[test]
fn escape_html_writes_references() {
    assert_eq!(escape_html("a<b>&\"c'"), "a&lt;b&gt;&amp;&quot;c&apos;");
    assert_eq!(escape_html(""), "");
    assert_eq!(escape_html("日本語"), "日本語");
}

#[test]
fn title_with_markup_is_escaped() {
    let out = transform_markdown("```lua:<x>.lua\nx\n```");
    assert_eq!(
        out,
        "<div class=\"codeblock-with-title\">\n<div class=\"codeblock-title\">&lt;x&gt;.lua</div>\n\n```lua\nx\n```\n\n</div>\n"
    );
}

#[test]
fn parse_title_needs_both_parts() {
    assert_eq!(parse_codeblock_title_line("```:a"), None);
    assert_eq!(parse_codeblock_title_line("```a:"), None);
    let t = parse_codeblock_title_line("```a:b:c").unwrap();
    assert_eq!(t.language, "a");
    assert_eq!(t.filename, "b:c");
    assert_eq!(parse_codeblock_title_line(" ```a:b"), None);
}

#[test]
fn lines_drop_carriage_returns_and_add_final_break() {
    assert_eq!(transform_markdown("a\r\nb"), "a\nb\n");
    assert_eq!(transform_markdown(""), "");
    assert_eq!(transform_markdown("a\r"), "a\r\n");
}

#[test]
fn unclosed_titled_block_keeps_lines() {
    assert_eq!(
        transform_markdown("```sh:run.sh\necho\n"),
        "<div class=\"codeblock-with-title\">\n<div class=\"codeblock-title\">run.sh</div>\n\n```sh\necho\n"
    );
}
