use projecta::underlines::{create_underline, is_underline_comment, rebuild_content, underlines_to_remove};

#[test]
fn test_underline_comment_detection() {
    assert!(is_underline_comment("    //=========="));
    assert!(is_underline_comment("//=== "));
    assert!(!is_underline_comment("// text"));
    assert!(!is_underline_comment("//"));
    assert!(!is_underline_comment("let x = 1; //==="));
}

#[test]
fn test_create_underline_matches_length() {
    assert_eq!(create_underline("// Section"), "//========");
    assert_eq!(create_underline("//"), "//");
}

#[test]
fn test_underlines_in_rust_blocks_only() {
    let lines = vec![
        "text  //=== outside",
        "```rust",
        "fn main() {}",
        "  //=========",
        "```",
        "  //=== after",
    ];
    assert_eq!(underlines_to_remove(&lines), vec![3]);
    assert_eq!(rebuild_content(&lines[0..2], true), "text  //=== outside\n```rust\n");
    assert_eq!(rebuild_content(&lines[0..2], false), "text  //=== outside\n```rust");
}
