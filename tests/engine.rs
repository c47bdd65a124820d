use scf::alias::{AliasEntry, AliasTable};
use scf::engine::find_matches;
use scf::pattern::Pattern;
use scf::tree::{SyntaxNode, SyntaxTree};

fn sample() -> (String, SyntaxTree) {
    let src = "fn main() { call(); }\n".to_string();
    let tree = SyntaxTree {
        nodes: vec![
            SyntaxNode { kind: "source_file".to_string(), start: 0, end: 22, row: 0, children: vec![1] },
            SyntaxNode { kind: "function_item".to_string(), start: 0, end: 21, row: 0, children: vec![2] },
            SyntaxNode { kind: "block".to_string(), start: 10, end: 21, row: 0, children: vec![3] },
            SyntaxNode { kind: "call_expression".to_string(), start: 12, end: 18, row: 0, children: vec![] },
        ],
    };
    (src, tree)
}

#[test]
fn global_alias_used_when_language_has_none() {
    let (src, tree) = sample();
    let table = AliasTable {
        entries: vec![AliasEntry { language: None, token: "call".to_string(), pattern: "call_expression$".to_string() }],
    };
    let content = Pattern::new("call").unwrap();
    let found = find_matches(&tree, src.as_bytes(), &table, &"rust".to_string(), &Some("call".to_string()), &content, true).unwrap();
    assert_eq!(found.len(), 1);
    assert_eq!(found[0].kind_path, b"function_item/block/call_expression".to_vec());
    assert_eq!((found[0].start, found[0].end), (12, 18));
}

#[test]
fn without_kind_the_outermost_match_comes_first() {
    let (src, tree) = sample();
    let content = Pattern::new("call").unwrap();
    let found = find_matches(&tree, src.as_bytes(), &AliasTable::empty(), &"rust".to_string(), &None, &content, false).unwrap();
    assert_eq!(found.len(), 1);
    assert_eq!(found[0].node, 1);
    assert_eq!(found[0].kind_path, b"function_item".to_vec());
    let all = find_matches(&tree, src.as_bytes(), &AliasTable::empty(), &"rust".to_string(), &None, &content, true).unwrap();
    let nodes: Vec<usize> = all.iter().map(|m| m.node).collect();
    assert_eq!(nodes, vec![1, 2, 3]);
}

#[test]
fn invalid_resolved_kind_is_an_error() {
    let (src, tree) = sample();
    let table = AliasTable {
        entries: vec![AliasEntry { language: Some("rust".to_string()), token: "bad".to_string(), pattern: "(unclosed".to_string() }],
    };
    let content = Pattern::new("call").unwrap();
    let err = find_matches(&tree, src.as_bytes(), &table, &"rust".to_string(), &Some("bad".to_string()), &content, false).unwrap_err();
    assert_eq!(err.pattern, "(unclosed");
}

#[test]
fn no_match_gives_nothing() {
    let (src, tree) = sample();
    let content = Pattern::new("absent").unwrap();
    let found = find_matches(&tree, src.as_bytes(), &AliasTable::empty(), &"rust".to_string(), &None, &content, true).unwrap();
    assert!(found.is_empty());
}
