use codekata::code::{build_code_table, decode_message, encode_message, get_encoding_map, CodeTable};
use codekata::freq::{build_occurence_map, FrequencyTable};
use codekata::tree::{build_binary_heap, build_huffman_tree, Node, OrderedQueue};

fn build_binary_heap_sample() -> OrderedQueue {
    let mut binary_heap = OrderedQueue::new();

    binary_heap.push(Node::new('C', 32));
    binary_heap.push(Node::new('D', 42));
    binary_heap.push(Node::new('E', 120));
    binary_heap.push(Node::new('K', 7));
    binary_heap.push(Node::new('L', 42));
    binary_heap.push(Node::new('M', 24));
    binary_heap.push(Node::new('U', 37));
    binary_heap.push(Node::new('Z', 2));

    binary_heap
}

fn build_huffman_tree_sample() -> Node {
    let z_leaf = Node::new('Z', 2);
    let u_leaf = Node::new('U', 37);
    let m_leaf = Node::new('M', 24);
    let l_leaf = Node::new('L', 42);
    let k_leaf = Node::new('K', 7);
    let e_leaf = Node::new('E', 120);
    let d_leaf = Node::new('D', 42);
    let c_leaf = Node::new('C', 32);

    let node_9 = Node::new_node(9, z_leaf, k_leaf);
    let node_33 = Node::new_node(33, node_9, m_leaf);
    let node_65 = Node::new_node(65, c_leaf, node_33);
    let node_107 = Node::new_node(107, l_leaf, node_65);
    let node_79 = Node::new_node(79, u_leaf, d_leaf);
    let node_186 = Node::new_node(186, node_79, node_107);
    let node_306 = Node::new_node(306, e_leaf, node_186);

    node_306
}

/// The reference stream: each symbol's first appearance in the same order as
/// the sample queue, with the reference frequencies.
fn sample_stream() -> String {
    let mut s = String::new();
    s.push_str(&"C".repeat(32));
    s.push_str(&"D".repeat(42));
    s.push_str(&"E".repeat(120));
    s.push_str(&"K".repeat(7));
    s.push_str(&"L".repeat(42));
    s.push_str(&"M".repeat(24));
    s.push_str(&"U".repeat(37));
    s.push_str(&"Z".repeat(2));
    s
}

#[test]
fn test_build_huffman_tree() {
    let mut binary_heap = build_binary_heap_sample();
    let root = build_huffman_tree_sample();
    assert_eq!(root, build_huffman_tree(&mut binary_heap));
}

#[test]
fn test_build_encoding_map() {
    let root = build_huffman_tree_sample();

    let mut chars = CodeTable::new();
    get_encoding_map(&root, "".to_string(), &mut chars);

    assert_eq!(chars.get('C'), Some("1110".to_string()));
    assert_eq!(chars.get('D'), Some("101".to_string()));
    assert_eq!(chars.get('E'), Some("0".to_string()));
}

#[test]
fn test_encode_message() {
    let root = build_huffman_tree_sample();
    let mut chars = CodeTable::new();
    get_encoding_map(&root, "".to_string(), &mut chars);

    let actual_encoded = encode_message("MELCDULKUMZ", &chars).unwrap();
    let expected_encoded = "111110110111010110011011110110011111111100".to_string();

    assert_eq!(expected_encoded, actual_encoded);
}

#[test]
fn whole_pipeline_reproduces_reference_codes() {
    let table = build_code_table(&sample_stream());
    assert_eq!(table.get('E'), Some("0".to_string()));
    assert_eq!(table.get('U'), Some("100".to_string()));
    assert_eq!(table.get('D'), Some("101".to_string()));
    assert_eq!(table.get('L'), Some("110".to_string()));
    assert_eq!(table.get('C'), Some("1110".to_string()));
    assert_eq!(table.get('M'), Some("11111".to_string()));
    assert_eq!(table.get('Z'), Some("111100".to_string()));
    assert_eq!(table.get('K'), Some("111101".to_string()));
}

#[test]
fn weighted_cost_matches_known_optimum() {
    let table = build_code_table(&sample_stream());
    let freqs = [('C', 32), ('D', 42), ('E', 120), ('K', 7), ('L', 42), ('M', 24), ('U', 37), (
        'Z',
        2,
    )];
    let mut cost = 0;
    for (letter, freq) in freqs.iter() {
        cost += freq * table.get(*letter).unwrap().len();
    }
    assert_eq!(cost, 785);
}

#[test]
fn built_codes_are_prefix_free() {
    let table = build_code_table(&sample_stream());
    let letters = ['C', 'D', 'E', 'K', 'L', 'M', 'U', 'Z'];
    for a in letters.iter() {
        for b in letters.iter() {
            if a != b {
                let ca = table.get(*a).unwrap();
                let cb = table.get(*b).unwrap();
                assert!(!cb.starts_with(&ca));
            }
        }
    }
}

#[test]
fn table_covers_exactly_the_stream_symbols() {
    let table = build_code_table("abracadabra");
    for c in "abrcd".chars() {
        assert!(table.get(c).is_some());
    }
    assert!(table.get('x').is_none());
    assert_eq!(table.entries.len(), 5);
}

#[test]
fn encode_then_decode_returns_the_message() {
    let stream = sample_stream();
    let table = build_code_table(&stream);
    let mut heap = build_binary_heap(build_occurence_map(&vec![stream]));
    let tree = build_huffman_tree(&mut heap);
    let message = "MELCDULKUMZ";
    let encoded = encode_message(message, &table).unwrap();
    let decoded = decode_message(&tree, &encoded).unwrap();
    let expected: Vec<char> = message.chars().collect();
    assert_eq!(decoded, expected);
}

#[test]
fn single_symbol_gets_a_nonempty_codeword() {
    let table = build_code_table("aaaa");
    assert_eq!(table.get('a'), Some("0".to_string()));
    let encoded = encode_message("aa", &table).unwrap();
    assert_eq!(encoded, "00");
}

#[test]
fn empty_stream_yields_empty_table() {
    let table = build_code_table("");
    assert_eq!(table.entries.len(), 0);
    assert_eq!(encode_message("x", &table), Err('x'));
    assert_eq!(encode_message("", &table), Ok("".to_string()));
}

#[test]
fn encoding_reports_the_first_unknown_symbol() {
    let table = build_code_table("ab");
    assert_eq!(encode_message("abq", &table), Err('q'));
}

#[test]
fn occurence_map_counts_two_lines() {
    let lines = vec!["aab".to_string(), "b".to_string()];
    let map = build_occurence_map(&lines);
    assert_eq!(map.get('a'), Some(2));
    assert_eq!(map.get('b'), Some(2));
    assert_eq!(map.get('c'), None);
    assert_eq!(map.len(), 2);
}

#[test]
fn queue_pops_lowest_count_first_insertion_breaking_ties() {
    let mut q = OrderedQueue::new();
    q.push(Node::new('a', 5));
    q.push(Node::new('b', 2));
    q.push(Node::new('c', 2));
    let first = q.pop().unwrap();
    assert_eq!(first.occurences(), 2);
    assert!(matches!(first, Node::Leaf { letter: 'b', .. }));
    let second = q.pop().unwrap();
    assert_eq!(second.occurences(), 2);
    assert!(matches!(second, Node::Leaf { letter: 'c', .. }));
    let third = q.pop().unwrap();
    assert_eq!(third.occurences(), 5);
    assert!(q.pop().is_none());
}

#[test]
fn frequency_table_starts_empty() {
    let table = FrequencyTable::new();
    assert_eq!(table.len(), 0);
    assert_eq!(table.get('a'), None);
}

#[test]
fn decoding_rejects_a_foreign_digit_and_a_truncated_code() {
    let stream = sample_stream();
    let mut heap = build_binary_heap(build_occurence_map(&vec![stream]));
    let tree = build_huffman_tree(&mut heap);
    assert_eq!(decode_message(&tree, "2"), None);
    assert_eq!(decode_message(&tree, "11"), None);
    assert_eq!(decode_message(&tree, ""), Some(Vec::new()));
}

#[test]
fn encoding_the_whole_stream_costs_the_weighted_total() {
    let stream = sample_stream();
    let table = build_code_table(&stream);
    let encoded = encode_message(&stream, &table).unwrap();
    assert_eq!(encoded.len(), 785);
}

#[test]
fn traversal_gives_a_lone_leaf_a_nonempty_codeword() {
    let root = Node::new('a', 4);
    let mut chars = CodeTable::new();
    get_encoding_map(&root, "".to_string(), &mut chars);
    assert_eq!(chars.get('a'), Some("0".to_string()));
}
