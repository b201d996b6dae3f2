use cs260::cfg::ControlFlowGraph;
use cs260::lir::{Block, Terminal};
use std::collections::HashSet;

fn constr_demo_cfg() -> ControlFlowGraph {
    let mut cfg = ControlFlowGraph::new();

    let block0 = Block::new("block0", &Terminal::Jump("xxx".to_string()));
    let block1 = Block::new("block1", &Terminal::Jump("xxx".to_string()));
    let block2 = Block::new("block2", &Terminal::Jump("xxx".to_string()));
    let block3 = Block::new("block3", &Terminal::Jump("xxx".to_string()));
    let block4 = Block::new("block4", &Terminal::Jump("xxx".to_string()));
    let block5 = Block::new("block5", &Terminal::Jump("xxx".to_string()));

    let label0 = "bb0".to_string();
    let label1 = "bb1".to_string();
    let label2 = "bb2".to_string();
    let label3 = "bb3".to_string();
    let label4 = "bb4".to_string();
    let label5 = "bb5".to_string();

    cfg.add_node(label0.clone(), block0.clone());
    cfg.add_node(label1.clone(), block1.clone());
    cfg.add_node(label2.clone(), block2.clone());
    cfg.add_node(label3.clone(), block3.clone());
    cfg.add_node(label4.clone(), block4.clone());
    cfg.add_node(label5.clone(), block5.clone());

    cfg.add_edge(label0.clone(), label1.clone());
    cfg.add_edge(label0.clone(), label2.clone());
    cfg.add_edge(label1.clone(), label3.clone());
    cfg.add_edge(label2.clone(), label3.clone());
    cfg.add_edge(label2.clone(), label4.clone());
    cfg.add_edge(label3.clone(), label5.clone());
    cfg.add_edge(label4.clone(), label5.clone());

    cfg
}

fn order_of(result: &Vec<(String, u32)>, label: &str) -> Option<u32> {
    result.iter().find(|(l, _)| l == label).map(|(_, n)| *n)
}

#[test]
fn test_topological_sort() {
    let cfg = constr_demo_cfg();

    let result = cfg.topological_sort();
    println!("{:?}", result);
    assert_eq!(order_of(&result, "bb0"), Some(0));
    assert_eq!(order_of(&result, "bb5"), Some(5));

    println!(
        "No.2's successor_labels: {:?}",
        cfg.get_successor_labels("bb2")
    );
}

#[test]
fn test_get_block_id() {
    let cfg = constr_demo_cfg();

    let block0 = cfg.get_block("bb0").unwrap();

    assert_eq!(cfg.get_block_label(&block0), Some("bb0".to_string()));

    println!("{:?}", block0);
}

#[test]
fn test_access_neighbors() {
    let cfg = constr_demo_cfg();
    let block0 = cfg.get_block("bb0").unwrap();
    let block2 = cfg.get_block("bb2").unwrap();
    let block3 = cfg.get_block("bb3").unwrap();
    let block4 = cfg.get_block("bb4").unwrap();

    assert_eq!(cfg.get_predecessor_labels("bb2"), vec!["bb0".to_string()]);
    assert_eq!(
        cfg.get_successor_labels("bb2"),
        vec!["bb3".to_string(), "bb4".to_string()]
    );
    assert_eq!(cfg.get_predecessors(block2), vec![block0]);
    let successors = cfg.get_successors(block2);
    assert_eq!(successors.len(), 2);
    assert!(successors.contains(&block3));
    assert!(successors.contains(&block4));
}

#[test]
fn test_detect_loop_headers() {
    let mut cfg = ControlFlowGraph::new();
    let block0 = Block::new("block0", &Terminal::Jump("block1".to_string()));
    let block1 = Block::new("block1", &Terminal::Jump("block2".to_string()));
    let block2 = Block::new("block2", &Terminal::Jump("block3".to_string()));
    let block3 = Block::new("block3", &Terminal::Jump("block1".to_string()));
    let block4 = Block::new("block4", &Terminal::Jump("block5".to_string()));
    let block5 = Block::new("block5", &Terminal::Jump("block4".to_string()));
    let block6 = Block::new("block6", &Terminal::Jump("block6".to_string()));

    let label0 = "bb0".to_string();
    let label1 = "bb1".to_string();
    let label2 = "bb2".to_string();
    let label3 = "bb3".to_string();
    let label4 = "bb4".to_string();
    let label5 = "bb5".to_string();
    let label6 = "bb6".to_string();

    cfg.add_node(label0.clone(), block0.clone());
    cfg.add_node(label1.clone(), block1.clone());
    cfg.add_node(label2.clone(), block2.clone());
    cfg.add_node(label3.clone(), block3.clone());
    cfg.add_node(label4.clone(), block4.clone());
    cfg.add_node(label5.clone(), block5.clone());
    cfg.add_node(label6.clone(), block6.clone());

    cfg.add_edge(label0.clone(), label1.clone());
    cfg.add_edge(label1.clone(), label2.clone());
    cfg.add_edge(label2.clone(), label1.clone());
    cfg.add_edge(label2.clone(), label3.clone());
    cfg.add_edge(label3.clone(), label4.clone());
    cfg.add_edge(label4.clone(), label5.clone());
    cfg.add_edge(label5.clone(), label4.clone());
    cfg.add_edge(label4.clone(), label6.clone());

    let loop_headers = cfg.get_loop_headers();

    println!("Loop headers: {:?}", loop_headers);

    for (src, dst) in &cfg.edges {
        println!(
            "{} -> {}, is_in_cycle: {}",
            src,
            dst,
            cfg.is_edge_in_cycle(src, dst)
        );
    }

    let found: HashSet<String> = loop_headers.into_iter().collect();
    assert_eq!(
        found,
        HashSet::from_iter(vec!["bb1".to_string(), "bb4".to_string()])
    );
}

#[test]
fn topological_numbers_increase_along_edges() {
    let cfg = constr_demo_cfg();
    let result = cfg.topological_sort();
    assert_eq!(result.len(), 6);
    let mut seen: Vec<u32> = result.iter().map(|(_, n)| *n).collect();
    seen.sort();
    assert_eq!(seen, vec![0, 1, 2, 3, 4, 5]);
    let edges = [
        ("bb0", "bb1"),
        ("bb0", "bb2"),
        ("bb1", "bb3"),
        ("bb2", "bb3"),
        ("bb2", "bb4"),
        ("bb3", "bb5"),
        ("bb4", "bb5"),
    ];
    for (a, b) in edges.iter() {
        assert!(order_of(&result, a).unwrap() < order_of(&result, b).unwrap());
    }
}

#[test]
fn sequence_puts_sources_before_targets() {
    let cfg = constr_demo_cfg();
    let seq = cfg.to_sequence();
    let ids: Vec<String> = seq.iter().map(|b| b.id.clone()).collect();
    assert_eq!(ids.len(), 6);
    let pos = |id: &str| ids.iter().position(|x| x == id).unwrap();
    assert_eq!(pos("block0"), 0);
    assert_eq!(pos("block5"), 5);
    for (a, b) in [(1, 3), (2, 3), (2, 4), (3, 5), (4, 5), (0, 1), (0, 2)] {
        assert!(pos(&format!("block{}", a)) < pos(&format!("block{}", b)));
    }
}
