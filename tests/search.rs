use scf::alias::{AliasEntry, AliasTable};
use scf::pattern::Pattern;
use scf::render::{context_window, render_block, render_if_matched, splice};
use scf::text::{decimal_digits, number_line, split_lines};
use scf::tree::{join_labels, match_row, MatchResult, SyntaxNode, SyntaxTree};
use scf::walk::{PendingPath, Walker};

fn node(kind: &str, start: usize, end: usize, row: usize, children: Vec<usize>) -> SyntaxNode {
    SyntaxNode { kind: kind.to_string(), start, end, row, children }
}

fn numbered_source(lines: usize, special: usize, text: &str) -> (String, usize, usize) {
    let mut s = String::new();
    let mut start = 0;
    let mut end = 0;
    for i in 0..lines {
        if i == special {
            start = s.len();
            s.push_str(text);
            end = s.len();
        } else {
            s.push_str(&format!("let x{} = {};", i, i));
        }
        s.push('\n');
    }
    (s, start, end)
}

fn todo_tree() -> (String, SyntaxTree) {
    let (src, start, end) = numbered_source(20, 10, "// TODO: fix");
    let tree = SyntaxTree {
        nodes: vec![
            node("source_file", 0, src.len(), 0, vec![1, 2]),
            node("let_declaration", 0, 12, 0, vec![]),
            node("line_comment", start, end, 10, vec![]),
        ],
    };
    (src, tree)
}

#[test]
fn todo_comment_found_with_context() {
    let (src, tree) = todo_tree();
    assert!(tree.is_well_formed(src.len()));
    let content = Pattern::new("TODO").unwrap();
    let found = tree.search(src.as_bytes(), &None, &content, false);
    assert_eq!(found.len(), 1);
    assert_eq!(found[0].node, 2);
    assert_eq!(found[0].kind_path, b"line_comment".to_vec());
    assert_eq!(found[0].match_row, 10);
    let block = render_block(src.as_bytes(), found[0].match_row, 5, 5);
    assert_eq!(block.len(), 11);
    assert_eq!(block[0], b"6    let x5 = 5;".to_vec());
    assert_eq!(block[5], b"11   // TODO: fix".to_vec());
    assert_eq!(block[10], b"16   let x15 = 15;".to_vec());
    let shown = render_if_matched(src.as_bytes(), found[0].start, found[0].end, &content, found[0].match_row, 5, 5).unwrap();
    assert_eq!(shown.len(), 11);
    assert_eq!(shown[0], b"6    let x5 = 5;".to_vec());
    assert!(String::from_utf8_lossy(&shown[5]).contains("TODO"));
}

#[test]
fn aliased_kind_matches_exact_kind_only() {
    let src = "fn a() {}\ntrait T { fn b() {} }\n";
    let tree = SyntaxTree {
        nodes: vec![
            node("source_file", 0, src.len(), 0, vec![1, 2]),
            node("function_item", 0, 9, 0, vec![]),
            node("trait_item", 10, 31, 1, vec![3]),
            node("function_item_nested_in_trait", 20, 29, 1, vec![]),
        ],
    };
    assert!(tree.is_well_formed(src.len()));
    let table = AliasTable {
        entries: vec![AliasEntry {
            language: Some("rust".to_string()),
            token: "fn".to_string(),
            pattern: "^function_item$".to_string(),
        }],
    };
    let kind = table.kind_filter(&"rust".to_string(), &Some("fn".to_string())).unwrap();
    let content = Pattern::new("fn").unwrap();
    let found = tree.search(src.as_bytes(), &kind, &content, true);
    assert_eq!(found.len(), 1);
    assert_eq!(found[0].node, 1);
    assert_eq!(found[0].kind_path, b"function_item".to_vec());
}

#[test]
fn all_matches_outer_before_inner() {
    let src = "{\n  call();\n}\n";
    let tree = SyntaxTree {
        nodes: vec![
            node("source_file", 0, src.len(), 0, vec![1]),
            node("block", 0, 13, 0, vec![2]),
            node("expression_statement", 4, 11, 1, vec![]),
        ],
    };
    let content = Pattern::new("call").unwrap();
    let found = tree.search(src.as_bytes(), &None, &content, true);
    assert_eq!(found.len(), 2);
    assert_eq!(found[0].node, 1);
    assert_eq!(found[0].kind_path, b"block".to_vec());
    assert_eq!(found[0].match_row, 1);
    assert_eq!(found[1].node, 2);
    assert_eq!(found[1].kind_path, b"block/expression_statement".to_vec());
    assert_eq!(found[1].match_row, 1);
    let first = tree.search(src.as_bytes(), &None, &content, false);
    assert_eq!(first, vec![found[0].clone()]);
}

#[test]
fn first_match_is_first_in_preorder() {
    let src = "aa bb aa";
    let tree = SyntaxTree {
        nodes: vec![
            node("root", 0, 8, 0, vec![1, 3]),
            node("left", 0, 5, 0, vec![2]),
            node("inner", 3, 5, 0, vec![]),
            node("right", 6, 8, 0, vec![]),
        ],
    };
    let kind = Some(Pattern::new("inner|right").unwrap());
    let content = Pattern::new("b|a").unwrap();
    let found = tree.search(src.as_bytes(), &kind, &content, false);
    assert_eq!(
        found,
        vec![MatchResult { node: 2, kind_path: b"left/inner".to_vec(), start: 3, end: 5, match_row: 0 }]
    );
    let none = tree.search(src.as_bytes(), &kind, &Pattern::new("zz").unwrap(), false);
    assert!(none.is_empty());
}

#[test]
fn kind_path_of_top_level_node_is_its_kind() {
    let src = "x";
    let tree = SyntaxTree {
        nodes: vec![node("source_file", 0, 1, 0, vec![1]), node("identifier", 0, 1, 0, vec![])],
    };
    let found = tree.search(src.as_bytes(), &None, &Pattern::new("x").unwrap(), true);
    assert_eq!(found.len(), 1);
    assert_eq!(found[0].kind_path, b"identifier".to_vec());
}

#[test]
fn malformed_trees_are_refused() {
    let bad_child = SyntaxTree { nodes: vec![node("a", 0, 1, 0, vec![0])] };
    assert!(!bad_child.is_well_formed(1));
    let bad_range = SyntaxTree { nodes: vec![node("a", 0, 5, 0, vec![])] };
    assert!(!bad_range.is_well_formed(1));
    let empty = SyntaxTree { nodes: vec![] };
    assert!(!empty.is_well_formed(0));
}

#[test]
fn language_alias_wins_over_global() {
    let table = AliasTable {
        entries: vec![
            AliasEntry { language: None, token: "fn".to_string(), pattern: "global_fn".to_string() },
            AliasEntry { language: Some("rust".to_string()), token: "fn".to_string(), pattern: "rust_fn".to_string() },
        ],
    };
    assert_eq!(table.resolve(&"rust".to_string(), &"fn".to_string()), "rust_fn");
    assert_eq!(table.resolve(&"python".to_string(), &"fn".to_string()), "global_fn");
}

#[test]
fn unaliased_token_is_used_literally() {
    let table = AliasTable::empty();
    assert_eq!(table.resolve(&"rust".to_string(), &"call_.*".to_string()), "call_.*");
    let other = AliasTable {
        entries: vec![AliasEntry { language: None, token: "x".to_string(), pattern: "y".to_string() }],
    };
    assert_eq!(other.resolve(&"rust".to_string(), &"z".to_string()), "z");
}

#[test]
fn no_kind_means_no_filter_and_bad_pattern_fails() {
    let table = AliasTable::empty();
    assert!(table.kind_filter(&"rust".to_string(), &None).unwrap().is_none());
    let err = table.kind_filter(&"rust".to_string(), &Some("(".to_string())).unwrap_err();
    assert_eq!(err.pattern, "(");
    assert!(Pattern::new("[a-").is_err());
}

#[test]
fn window_is_clamped_to_the_file() {
    assert_eq!(context_window(0, 5, 5, 20), (0, 6));
    assert_eq!(context_window(10, 5, 5, 20), (5, 16));
    assert_eq!(context_window(18, 5, 5, 20), (13, 20));
    assert_eq!(context_window(3, 0, 0, 4), (3, 4));
    assert_eq!(context_window(7, 2, usize::MAX, 8), (5, 8));
    let block = render_block(b"a\nb\nc", 0, 5, 5);
    assert_eq!(block, vec![b"1    a".to_vec(), b"2    b".to_vec(), b"3    c".to_vec()]);
}

#[test]
fn lines_follow_terminators() {
    assert_eq!(split_lines(b"a\r\nb\n\nc\r"), vec![b"a".to_vec(), b"b".to_vec(), b"".to_vec(), b"c\r".to_vec()]);
    assert_eq!(split_lines(b"x\n"), vec![b"x".to_vec()]);
    assert!(split_lines(b"").is_empty());
}

#[test]
fn line_numbers_are_padded() {
    assert_eq!(decimal_digits(0), b"0".to_vec());
    assert_eq!(decimal_digits(40213), b"40213".to_vec());
    assert_eq!(number_line(7, b"x"), b"7    x".to_vec());
    assert_eq!(number_line(12345, b"y"), b"12345 y".to_vec());
}

#[test]
fn splice_replaces_the_range() {
    assert_eq!(splice(b"hello world", 6, 11, b"there"), b"hello there".to_vec());
    assert_eq!(splice(b"abc", 1, 1, b"X"), b"aXbc".to_vec());
}

#[test]
fn match_row_picks_first_matching_line() {
    let p = Pattern::new("b+").unwrap();
    assert_eq!(match_row(&p, b"a\nbb\nb", 3), 4);
    let across = Pattern::new("a\nb").unwrap();
    assert_eq!(match_row(&across, b"a\nb", 3), 3);
}

#[test]
fn labels_are_joined_by_slash() {
    assert_eq!(join_labels(&vec![b"a".to_vec(), b"bc".to_vec(), b"d".to_vec()]), b"a/bc/d".to_vec());
    assert_eq!(join_labels(&vec![]), Vec::<u8>::new());
}

#[test]
fn walk_is_depth_first_in_order() {
    let mut w = Walker::new(vec!["a".to_string(), "b".to_string()], None);
    let first = w.next().unwrap();
    assert_eq!((first.path.as_str(), first.depth), ("a", 0));
    w.enter_directory(vec!["a/x".to_string(), "a/y".to_string()], first.depth);
    let order: Vec<(String, usize)> = std::iter::from_fn(|| w.next()).map(|p: PendingPath| (p.path, p.depth)).collect();
    assert_eq!(
        order,
        vec![("a/x".to_string(), 1), ("a/y".to_string(), 1), ("b".to_string(), 0)]
    );
}

#[test]
fn depth_zero_searches_roots_only() {
    let mut w = Walker::new(vec!["dir".to_string(), "file.rs".to_string()], Some(0));
    let d = w.next().unwrap();
    assert_eq!(d.path, "dir");
    w.enter_directory(vec!["dir/inner.rs".to_string()], d.depth);
    let f = w.next().unwrap();
    assert_eq!((f.path.as_str(), f.depth), ("file.rs", 0));
    assert!(w.next().is_none());
}

#[test]
fn depth_bound_keeps_shallower_levels() {
    let mut w = Walker::new(vec!["d".to_string()], Some(1));
    let d = w.next().unwrap();
    w.enter_directory(vec!["d/e".to_string()], d.depth);
    let e = w.next().unwrap();
    assert_eq!((e.path.as_str(), e.depth), ("d/e", 1));
    w.enter_directory(vec!["d/e/f".to_string()], e.depth);
    assert!(w.next().is_none());
}

#[test]
fn match_is_styled_inside_the_shaded_node() {
    colored::control::set_override(true);
    let src = "let a = 1;\nlet todo = TODO;\n";
    let content = Pattern::new("TODO").unwrap();
    let shown = render_if_matched(src.as_bytes(), 11, 27, &content, 1, 0, 0).unwrap();
    assert!(render_if_matched(src.as_bytes(), 0, 10, &content, 0, 0, 0).is_none());
    assert_eq!(shown.len(), 1);
    let line = String::from_utf8_lossy(&shown[0]).to_string();
    assert!(line.starts_with("2    "));
    assert!(line.contains("1;31mTODO"));
    assert!(!line.contains("1;31mlet"));
}

fn strip_style_codes(s: &[u8]) -> Vec<u8> {
    let mut out = Vec::new();
    let mut i = 0;
    while i < s.len() {
        if s[i] == 27 && i + 1 < s.len() && s[i + 1] == b'[' {
            let mut k = i + 2;
            while k < s.len() && (s[k].is_ascii_digit() || s[k] == b';') {
                k += 1;
            }
            if k < s.len() && s[k] == b'm' {
                i = k + 1;
                continue;
            }
        }
        out.push(s[i]);
        i += 1;
    }
    out
}

#[test]
fn styling_only_adds_codes() {
    colored::control::set_override(true);
    let src = "fn a() {\n    // TODO: x\n    b();\n}\nfn c() {}\n";
    let content = Pattern::new("TODO").unwrap();
    let shown = render_if_matched(src.as_bytes(), 0, 34, &content, 1, 1, 2).unwrap();
    let plain = render_block(src.as_bytes(), 1, 1, 2);
    assert_eq!(shown.len(), plain.len());
    assert_ne!(shown, plain);
    for (styled, bare) in shown.iter().zip(plain.iter()) {
        assert_eq!(&strip_style_codes(styled), bare);
    }
}
