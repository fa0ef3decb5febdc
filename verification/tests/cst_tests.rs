use sylo::cfg::{GrammarBuilder, Symbol};
use sylo::cst::{tree_step, CSTBuilder, Node};
use sylo::lex::Command;
use sylo::syn::SynDef;

fn children(links: &[sylo::cst::Link], head: usize) -> Vec<usize> {
    let mut out = Vec::new();
    let mut cur = Some(head);
    while let Some(l) = cur {
        out.push(links[l].index);
        cur = links[l].next;
    }
    out
}

#[test]
fn cst_branch_collects_children_in_order() {
    let mut b = CSTBuilder::new();
    b.leaf(0, 0);
    b.leaf(0, 1);
    b.leaf(1, 2);
    b.branch(1, 2);
    b.branch(0, 2);
    let cst = b.build();
    assert_eq!(cst.nodes.len(), 5);
    match cst.nodes[3] {
        Node::Branch { var, head } => {
            assert_eq!(var, 1);
            assert_eq!(children(&cst.links, head), vec![1, 2]);
        }
        _ => panic!("expected a branch"),
    }
    match cst.nodes[4] {
        Node::Branch { var, head } => {
            assert_eq!(var, 0);
            assert_eq!(children(&cst.links, head), vec![0, 3]);
        }
        _ => panic!("expected a branch"),
    }
}

#[test]
fn cst_list_is_spliced_into_parent() {
    let mut b = CSTBuilder::new();
    b.leaf(5, 0);
    b.leaf(6, 1);
    b.list(2);
    b.leaf(7, 2);
    b.branch(3, 2);
    let cst = b.build();
    assert_eq!(cst.nodes.len(), 4);
    match cst.nodes[3] {
        Node::Branch { var, head } => {
            assert_eq!(var, 3);
            assert_eq!(children(&cst.links, head), vec![0, 1, 2]);
        }
        _ => panic!("expected a branch"),
    }
}

#[test]
fn cst_empty_children_give_no_node() {
    let mut b = CSTBuilder::new();
    b.branch(2, 0);
    b.leaf(1, 0);
    b.branch(4, 2);
    let cst = b.build();
    assert_eq!(cst.nodes.len(), 2);
    match cst.nodes[1] {
        Node::Branch { var, head } => {
            assert_eq!(var, 4);
            assert_eq!(children(&cst.links, head), vec![0]);
        }
        _ => panic!("expected a branch"),
    }
}

#[test]
fn tree_steps_build_the_parse_tree() {
    // S -> ( S ) | ( )  as words 0 and 1; S is kept in the tree.
    let grammar = GrammarBuilder::new()
        .rule(&[&[Symbol::Terminal(0), Symbol::Variable(0), Symbol::Terminal(1)], &[Symbol::Terminal(0), Symbol::Terminal(1)]])
        .try_build()
        .unwrap();
    let syn = match (SynDef { grammar, word_count: 2 }).compile() {
        Ok(s) => s,
        Err(_) => panic!("no conflict expected"),
    };
    let commands = vec![Command::Emit];
    let mut parse = syn.parse(vec![0, 0, 1, 1]);
    let mut b = CSTBuilder::new();
    loop {
        match tree_step(&mut parse, &mut b, &commands) {
            None => break,
            Some(Ok(_)) => {}
            Some(Err(_)) => panic!("the input is a sentence"),
        }
    }
    let cst = b.build();
    // three leaves, the inner S, the last leaf, then the outer S with three children
    assert_eq!(cst.nodes.len(), 6);
    match cst.nodes[5] {
        Node::Branch { var, head } => {
            assert_eq!(var, 0);
            assert_eq!(children(&cst.links, head).len(), 3);
        }
        _ => panic!("the root is a branch"),
    }
}

#[test]
fn branch_of_two_leaves_links_the_last_first() {
    let mut b = CSTBuilder::new();
    b.leaf(0, 0);
    b.leaf(1, 1);
    b.branch(7, 2);
    let cst = b.build();
    assert_eq!(cst.nodes, vec![Node::Leaf { word: 0, index: 0 }, Node::Leaf { word: 1, index: 1 }, Node::Branch { var: 7, head: 1 }]);
    assert_eq!(cst.links, vec![sylo::cst::Link { index: 1, next: None }, sylo::cst::Link { index: 0, next: Some(0) }]);
}
