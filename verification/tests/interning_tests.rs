use projecta::interning::{maybe_escape_html, normalize_whitespace, StringInterner, SymbolInterner};
use std::borrow::Cow;

#[test]
fn test_normalize_no_change() {
    let result = normalize_whitespace("hello world");
    assert!(matches!(result, Cow::Borrowed(_)));
    assert_eq!(result, "hello world");
}

#[test]
fn test_normalize_with_change() {
    let result = normalize_whitespace("hello  world\tagain");
    assert!(matches!(result, Cow::Owned(_)));
    assert_eq!(result, "hello world again");
}

#[test]
fn test_normalize_tabs() {
    let result = normalize_whitespace("hello\tworld");
    assert!(matches!(result, Cow::Owned(_)));
    assert_eq!(result, "hello world");
}

#[test]
fn test_escape_no_html() {
    let result = maybe_escape_html("hello");
    assert!(matches!(result, Cow::Borrowed(_)));
    assert_eq!(result, "hello");
}

#[test]
fn test_escape_with_html() {
    let result = maybe_escape_html("<div>");
    assert!(matches!(result, Cow::Owned(_)));
    assert_eq!(result, "&lt;div&gt;");
}

#[test]
fn test_escape_ampersand() {
    let result = maybe_escape_html("a & b");
    assert!(matches!(result, Cow::Owned(_)));
    assert_eq!(result, "a &amp; b");
}

#[test]
fn test_escape_complex() {
    let result = maybe_escape_html("<script>alert('&')</script>");
    assert!(matches!(result, Cow::Owned(_)));
    assert_eq!(result, "&lt;script&gt;alert('&amp;')&lt;/script&gt;");
}

#[test]
fn test_intern_basic() {
    let mut interner = StringInterner::new();
    let s1_addr = interner.intern("hello").as_ptr() as usize;
    let s2_addr = interner.intern("hello").as_ptr() as usize;
    assert_eq!(s1_addr, s2_addr);
    assert_eq!(interner.len(), 1);
}

#[test]
fn test_intern_different() {
    let mut interner = StringInterner::new();
    let s1_addr = interner.intern("hello").as_ptr() as usize;
    let s2_addr = interner.intern("world").as_ptr() as usize;
    assert_ne!(s1_addr, s2_addr);
    assert_eq!(interner.len(), 2);
}

#[test]
fn test_contains() {
    let mut interner = StringInterner::new();
    interner.intern("hello");
    assert!(interner.contains("hello"));
    assert!(!interner.contains("world"));
}

#[test]
fn test_total_bytes() {
    let mut interner = StringInterner::new();
    interner.intern("hi");
    interner.intern("hello");
    assert_eq!(interner.total_bytes(), 7);
}

#[test]
fn test_cow_already_interned() {
    let mut interner = StringInterner::new();
    interner.intern("hello");
    let result = interner.get_or_intern("hello");
    assert!(matches!(result, Cow::Borrowed(_)));
}

#[test]
fn test_cow_new_string() {
    let mut interner = StringInterner::new();
    let result = interner.get_or_intern("hello");
    assert!(matches!(result, Cow::Borrowed(_)));
    assert_eq!(interner.len(), 1);
}

#[test]
fn test_stats() {
    let mut interner = StringInterner::new();
    interner.intern("hello");
    interner.intern("world");
    interner.intern("hello");
    let stats = interner.statistics();
    assert_eq!(stats.total_strings, 2);
    assert_eq!(stats.total_bytes, 10);
    assert_eq!(stats.allocations, 2);
    assert_eq!(stats.lookups, 1);
}

#[test]
fn test_stats_empty() {
    let interner = StringInterner::new();
    let stats = interner.statistics();
    assert_eq!(stats.total_strings, 0);
    assert_eq!(stats.allocations, 0);
    assert_eq!(stats.lookups, 0);
}

#[test]
fn test_symbol_intern() {
    let mut interner = SymbolInterner::new();
    let sym1 = interner.intern("hello");
    let sym2 = interner.intern("hello");
    assert_eq!(sym1, sym2);
    assert_eq!(interner.resolve(sym1), Some("hello"));
}

#[test]
fn test_symbol_resolve() {
    let mut interner = SymbolInterner::new();
    let sym = interner.intern("test");
    assert_eq!(interner.resolve(sym), Some("test"));
}

#[test]
fn test_stale_symbol() {
    let mut interner = SymbolInterner::new();
    let sym1 = interner.intern("test");
    interner.clear();
    assert_eq!(interner.resolve(sym1), None);
}

#[test]
fn test_generation_reuse() {
    let mut interner = SymbolInterner::new();
    let sym1 = interner.intern("test");
    let index1 = sym1.index;
    let gen1 = sym1.generation;
    interner.remove(sym1);
    let sym2 = interner.intern("test");
    assert_eq!(sym2.index, index1);
    assert_ne!(sym2.generation, gen1);
}

#[test]
fn test_symbol_lifetime_safety() {
    let mut interner = SymbolInterner::new();
    let sym = interner.intern("test");
    drop(interner);
    let _copy = sym;
}

#[test]
fn test_symbol_remove() {
    let mut interner = SymbolInterner::new();
    let sym1 = interner.intern("hello");
    let sym2 = interner.intern("world");
    assert_eq!(interner.len(), 2);
    interner.remove(sym1);
    assert_eq!(interner.len(), 1);
    assert_eq!(interner.resolve(sym1), None);
    assert_eq!(interner.resolve(sym2), Some("world"));
}

#[test]
fn test_symbol_different_strings() {
    let mut interner = SymbolInterner::new();
    let sym1 = interner.intern("hello");
    let sym2 = interner.intern("world");
    assert_ne!(sym1, sym2);
    assert_eq!(interner.resolve(sym1), Some("hello"));
    assert_eq!(interner.resolve(sym2), Some("world"));
}

#[test]
fn test_multiple_removes_and_interns() {
    let mut interner = SymbolInterner::new();
    let sym1 = interner.intern("a");
    let sym2 = interner.intern("b");
    interner.remove(sym1);
    interner.remove(sym2);
    let sym3 = interner.intern("c");
    let sym4 = interner.intern("d");
    assert_eq!(interner.resolve(sym3), Some("c"));
    assert_eq!(interner.resolve(sym4), Some("d"));
    assert_eq!(interner.resolve(sym1), None);
    assert_eq!(interner.resolve(sym2), None);
}

#[test]
fn normalize_leaves_other_whitespace_alone_unless_triggered() {
    assert!(matches!(normalize_whitespace("a\nb"), Cow::Borrowed(_)));
    assert_eq!(normalize_whitespace("  lead and trail  "), "lead and trail");
    assert_eq!(normalize_whitespace("\t"), "");
}

#[test]
fn clear_resets_string_interner() {
    let mut interner = StringInterner::new();
    interner.intern("x");
    interner.intern("x");
    interner.clear();
    assert!(interner.is_empty());
    assert_eq!(interner.statistics().lookups, 0);
    assert_eq!(interner.total_bytes(), 0);
}

#[test]
fn freed_slots_are_reused_last_in_first_out() {
    let mut interner = SymbolInterner::new();
    let a = interner.intern("a");
    let b = interner.intern("b");
    interner.remove(a);
    interner.remove(b);
    let c = interner.intern("c");
    assert_eq!(c.index, b.index);
    assert_eq!(c.generation, b.generation + 2);
    assert!(interner.len() == 1 && !interner.is_empty());
}
