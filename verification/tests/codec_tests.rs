use gaal::kvlm::Kvlm;
use gaal::tree::{Tree, TreeLeaf, tree_parse, tree_serialize, tree_leaf_sort_key};

#[test]
fn kvlm_from_string() {
    let data = "Subject Hello\n\
            From Alice\n\
            To Bob\n\
            MultilineField This is a\n \
             mult\\niline\n \
             message\n\
            \n\
            This is the message \n\
            body";
    let kvlm = Kvlm::parse(data);
    assert_eq!(kvlm.fields["Subject"], "Hello");
    assert_eq!(kvlm.fields["From"], "Alice");
    assert_eq!(kvlm.fields["To"], "Bob");
    assert_eq!(kvlm.fields["MultilineField"], "This is a\nmult\\niline\nmessage");
    assert_eq!(kvlm.message, "This is the message \nbody");
}

#[test]
fn kvlm_from_string_empty() {
    let data = "";
    let kvlm = Kvlm::parse(data);
    assert_eq!(kvlm.fields.len(), 0);
    assert_eq!(kvlm.message, "");
}

#[test]
fn kvlm_into_string() {
    let data = "Subject Hello\n\
            From Alice\n\
            To Bob\n\
            MultilineField This is a\n \
             mult\\niline\n \
             message\n\
            \n\
            This is the message \n\
            body";
    let kvlm = Kvlm::parse(data);
    let result: String = kvlm.serialize();
    assert_eq!(result, data);
}

#[test]
fn kvlm_round_trip_from_values() {
    let mut kvlm = Kvlm::new();
    kvlm.fields.insert("Author".to_string(), "Alice <a@example>".to_string());
    kvlm.fields.insert("Note".to_string(), "one\ntwo".to_string());
    kvlm.message = "the body".to_string();
    let text = kvlm.serialize();
    let back = Kvlm::parse(&text);
    assert_eq!(back.fields, kvlm.fields);
    assert_eq!(back.message, kvlm.message);
}

#[test]
fn kvlm_example_two_fields() {
    let kvlm = Kvlm::parse("Subject Hello\nFrom Alice\n\nBody");
    assert_eq!(kvlm.fields["Subject"], "Hello");
    assert_eq!(kvlm.fields["From"], "Alice");
    assert_eq!(kvlm.message, "Body");
}

#[test]
fn kvlm_duplicate_key_keeps_position() {
    let kvlm = Kvlm::parse("a 1\nb 2\na 3\n\nm");
    let items: Vec<(&String, &String)> = kvlm.fields.iter().collect();
    assert_eq!(items.len(), 2);
    assert_eq!(items[0].0, "a");
    assert_eq!(items[0].1, "3");
    assert_eq!(items[1].0, "b");
}

#[test]
fn tree_from_string() {
    let tree = Tree {
        leafs: vec![TreeLeaf {
            path: "README.md".to_string(),
            mode: "100644".to_string(),
            sha: "1234567890abcdef1234567890abcdef12345678".to_string(),
        }],
    };

    let serialized = tree_serialize(&tree).unwrap();
    let result = tree_parse(&serialized).unwrap();

    assert_eq!(result[0].mode, "100644");
    assert_eq!(result[0].path, "README.md");
    assert_eq!(result[0].sha, "1234567890abcdef1234567890abcdef12345678");
}

#[test]
fn tree_from_string_empty() {
    let data: Vec<u8> = Vec::new();
    let tree = tree_parse(&data).unwrap();
    assert_eq!(tree.len(), 0);
}

#[test]
fn tree_into_string() {
    // without the terminator after the entry name the bytes are not a
    // tree: the twenty id bytes cannot be found
    let serialized = "100644 README.md1234567890abcdef1234567890abcdef12345678";
    let result = tree_parse(&serialized.as_bytes().to_vec());
    assert!(result.is_err());
}

#[test]
fn tree_serialization_is_order_independent() {
    let a = TreeLeaf {
        path: "a.txt".to_string(),
        mode: "100644".to_string(),
        sha: "1234567890abcdef1234567890abcdef12345678".to_string(),
    };
    let b = TreeLeaf {
        path: "lib".to_string(),
        mode: "040000".to_string(),
        sha: "abcdefabcdefabcdefabcdefabcdefabcdefabcd".to_string(),
    };
    let t1 = Tree { leafs: vec![a.clone(), b.clone()] };
    let t2 = Tree { leafs: vec![b, a] };
    assert_eq!(tree_serialize(&t1).unwrap(), tree_serialize(&t2).unwrap());
}

#[test]
fn tree_parse_recovers_leaf_set() {
    let a = TreeLeaf {
        path: "zz.txt".to_string(),
        mode: "100644".to_string(),
        sha: "1234567890abcdef1234567890abcdef12345678".to_string(),
    };
    let b = TreeLeaf {
        path: "aa".to_string(),
        mode: "040000".to_string(),
        sha: "abcdefabcdefabcdefabcdefabcdefabcdefabcd".to_string(),
    };
    let tree = Tree { leafs: vec![a.clone(), b.clone()] };
    let parsed = tree_parse(&tree_serialize(&tree).unwrap()).unwrap();
    assert_eq!(parsed.len(), 2);
    assert!(parsed.contains(&a));
    assert!(parsed.contains(&b));
}

#[test]
fn tree_five_digit_mode_gains_a_zero() {
    let leaf = TreeLeaf {
        path: "d".to_string(),
        mode: "40000".to_string(),
        sha: "1234567890abcdef1234567890abcdef12345678".to_string(),
    };
    let tree = Tree { leafs: vec![leaf] };
    let parsed = tree_parse(&tree_serialize(&tree).unwrap()).unwrap();
    assert_eq!(parsed[0].mode, "040000");
}

#[test]
fn tree_uppercase_id_comes_back_lowercase() {
    let leaf = TreeLeaf {
        path: "f".to_string(),
        mode: "100644".to_string(),
        sha: "ABCDEFABCDEFABCDEFABCDEFABCDEFABCDEFABCD".to_string(),
    };
    let tree = Tree { leafs: vec![leaf] };
    let parsed = tree_parse(&tree_serialize(&tree).unwrap()).unwrap();
    assert_eq!(parsed[0].sha, "abcdefabcdefabcdefabcdefabcdefabcdefabcd");
}

#[test]
fn tree_bad_id_is_invalid_data() {
    let leaf = TreeLeaf {
        path: "f".to_string(),
        mode: "100644".to_string(),
        sha: "zz".to_string(),
    };
    let tree = Tree { leafs: vec![leaf] };
    assert!(tree_serialize(&tree).is_err());
}

#[test]
fn tree_equal_keys_still_order_independent() {
    let a = TreeLeaf {
        path: "same".to_string(),
        mode: "100644".to_string(),
        sha: "1111111111111111111111111111111111111111".to_string(),
    };
    let b = TreeLeaf {
        path: "same".to_string(),
        mode: "100644".to_string(),
        sha: "2222222222222222222222222222222222222222".to_string(),
    };
    let t1 = Tree { leafs: vec![a.clone(), b.clone()] };
    let t2 = Tree { leafs: vec![b, a] };
    assert_eq!(tree_serialize(&t1).unwrap(), tree_serialize(&t2).unwrap());
}

#[test]
fn tree_sort_key_marks_subtrees() {
    let file = TreeLeaf {
        path: "x".to_string(),
        mode: "100644".to_string(),
        sha: "1234567890abcdef1234567890abcdef12345678".to_string(),
    };
    let dir = TreeLeaf {
        path: "x".to_string(),
        mode: "040000".to_string(),
        sha: "1234567890abcdef1234567890abcdef12345678".to_string(),
    };
    assert_eq!(tree_leaf_sort_key(&file), "x");
    assert_eq!(tree_leaf_sort_key(&dir), "x/");
}
