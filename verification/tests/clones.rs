use dom_cloner::aggregator::Aggregator;
use dom_cloner::builder::NodeBuilder;
use dom_cloner::cloner::{clone_child, process, skibidi};
use dom_cloner::document::{Document, Node};
use dom_cloner::mint::Mint;
use dom_cloner::orchestrator::{sigma, BATCH};
use dom_cloner::properties::Properties;
use dom_cloner::value::{UniqueStamp, Value, NO_REFERENCE};
use rbx_types::Variant;

fn text(value: &str) -> Value {
    Value::Other(Variant::String(value.to_string()))
}

fn properties(pairs: Vec<(&str, Value)>) -> Properties {
    let mut properties = Properties::new();
    for (key, value) in pairs {
        properties.insert(key.to_string(), value);
    }
    properties
}

fn leaf(identity: u128, class: &str, name: &str) -> Node {
    Node::new(identity, class, name, Properties::new(), Vec::new())
}

/// A root with the children `Folder` (10) and `Part` (20); the part holds a
/// stamp and a reference to the folder, and has the child `Decal` (21).
fn sample() -> Document {
    let stamp = UniqueStamp { index: 1, time: 2, random: 3 };
    let nodes = vec![
        Node::new(1, "DataModel", "Game", Properties::new(), vec![10, 20]),
        Node::new(10, "Folder", "A", properties(vec![("Tag", text("x"))]), Vec::new()),
        Node::new(
            20,
            "Part",
            "B",
            properties(vec![
                ("UniqueId", Value::UniqueId(stamp)),
                ("Target", Value::Reference(10)),
                ("Anchored", Value::Other(Variant::Bool(true))),
            ]),
            vec![21],
        ),
        leaf(21, "Decal", "Face"),
    ];
    Document::from_nodes(1, nodes).unwrap()
}

fn identities_below(document: &Document, identity: u128, found: &mut Vec<u128>) {
    let node = document.get_by_ref(identity).unwrap();
    found.push(node.referent());
    for child in node.children() {
        identities_below(document, *child, found);
    }
}

fn same_shape(left: &Document, left_id: u128, right: &Document, right_id: u128) -> bool {
    let a = left.get_by_ref(left_id).unwrap();
    let b = right.get_by_ref(right_id).unwrap();
    a.class() == b.class() && a.name() == b.name() && a.children().len() == b.children().len()
        && a.children().iter().zip(b.children().iter()).all(|(x, y)| same_shape(left, *x, right, *y))
}

#[test]
fn scenario_folder_and_part() {
    let source = sample();
    let copy = sigma(&source, BATCH);
    let root = copy.get_by_ref(copy.root_ref()).unwrap();
    assert_eq!(root.class(), "DataModel");
    assert_eq!(root.children().len(), 2);

    let a = copy.get_by_ref(root.children()[0]).unwrap();
    let b = copy.get_by_ref(root.children()[1]).unwrap();
    assert_eq!(a.class(), "Folder");
    assert_eq!(b.class(), "Part");
    assert_eq!(a.name(), "A");
    assert_eq!(b.name(), "B");
    for identity in [a.referent(), b.referent()] {
        assert_ne!(identity, NO_REFERENCE);
        assert!(![1u128, 10, 20, 21].contains(&identity));
    }
    assert_ne!(a.referent(), b.referent());

    assert_eq!(a.properties().get("Tag"), Some(&text("x")));
    assert_eq!(b.properties().get("Target"), Some(&Value::Reference(NO_REFERENCE)));
    assert_eq!(b.properties().get("Anchored"), Some(&Value::Other(Variant::Bool(true))));
    let old = Value::UniqueId(UniqueStamp { index: 1, time: 2, random: 3 });
    match b.properties().get("UniqueId") {
        Some(Value::UniqueId(stamp)) => assert_ne!(Value::UniqueId(*stamp), old),
        Some(other) => panic!("the stamp became {:?}", other),
        None => {}
    }
}

#[test]
fn clone_shares_no_identity_with_source() {
    let source = sample();
    let copy = sigma(&source, BATCH);
    let mut found = Vec::new();
    identities_below(&copy, copy.root_ref(), &mut found);
    assert_eq!(found.len(), 4);
    for identity in &found {
        assert_ne!(*identity, NO_REFERENCE);
        assert!(source.get_by_ref(*identity).is_none());
    }
    let mut sorted = found.clone();
    sorted.sort();
    sorted.dedup();
    assert_eq!(sorted.len(), found.len());
}

#[test]
fn clone_has_the_shape_of_its_source() {
    let source = sample();
    let copy = sigma(&source, BATCH);
    let source_root = source.get_by_ref(source.root_ref()).unwrap();
    let copy_root = copy.get_by_ref(copy.root_ref()).unwrap();
    assert_eq!(copy_root.children().len(), source_root.children().len());
    for (from, to) in source_root.children().iter().zip(copy_root.children().iter()) {
        assert!(same_shape(&source, *from, &copy, *to));
    }
    let part = copy.get_by_ref(copy_root.children()[1]).unwrap();
    let decal = copy.get_by_ref(part.children()[0]).unwrap();
    assert_eq!(decal.class(), "Decal");
    assert_eq!(decal.name(), "Face");
}

#[test]
fn empty_root_gives_empty_clone() {
    let source = Document::from_nodes(7, vec![leaf(7, "DataModel", "Game")]).unwrap();
    let copy = sigma(&source, BATCH);
    let root = copy.get_by_ref(copy.root_ref()).unwrap();
    assert_eq!(root.children().len(), 0);
    assert_eq!(root.class(), "DataModel");
    assert_eq!(root.name(), "DataModel");
    assert_eq!(root.properties().len(), 0);
}

#[test]
fn missing_root_gives_empty_clone() {
    let source = Document::from_nodes(99, vec![leaf(7, "Folder", "Lost")]).unwrap();
    let copy = sigma(&source, BATCH);
    let root = copy.get_by_ref(copy.root_ref()).unwrap();
    assert_eq!(root.children().len(), 0);

    let nothing = Document::from_nodes(NO_REFERENCE, Vec::new()).unwrap();
    let copy = sigma(&nothing, BATCH);
    assert_eq!(copy.get_by_ref(copy.root_ref()).unwrap().children().len(), 0);
}

#[test]
fn dangling_children_are_passed_over() {
    let nodes = vec![
        Node::new(1, "DataModel", "Game", Properties::new(), vec![500, 2, 501, 3]),
        Node::new(2, "Folder", "First", Properties::new(), vec![600, 4]),
        leaf(3, "Folder", "Second"),
        leaf(4, "Part", "Inner"),
    ];
    let source = Document::from_nodes(1, nodes).unwrap();
    let copy = sigma(&source, BATCH);
    let root = copy.get_by_ref(copy.root_ref()).unwrap();
    assert_eq!(root.children().len(), 2);
    let first = copy.get_by_ref(root.children()[0]).unwrap();
    let second = copy.get_by_ref(root.children()[1]).unwrap();
    assert_eq!(first.name(), "First");
    assert_eq!(second.name(), "Second");
    assert_eq!(first.children().len(), 1);
    assert_eq!(copy.get_by_ref(first.children()[0]).unwrap().name(), "Inner");
}

#[test]
fn references_are_reset_at_every_depth() {
    let nodes = vec![
        Node::new(1, "DataModel", "Game", Properties::new(), vec![2]),
        Node::new(2, "Model", "M", properties(vec![("Primary", Value::Reference(3))]), vec![3]),
        Node::new(
            3,
            "Part",
            "P",
            properties(vec![("Parent", Value::Reference(2)), ("None", Value::Reference(0))]),
            Vec::new(),
        ),
    ];
    let source = Document::from_nodes(1, nodes).unwrap();
    let copy = sigma(&source, BATCH);
    let root = copy.get_by_ref(copy.root_ref()).unwrap();
    let model = copy.get_by_ref(root.children()[0]).unwrap();
    let part = copy.get_by_ref(model.children()[0]).unwrap();
    assert_eq!(model.properties().get("Primary"), Some(&Value::Reference(NO_REFERENCE)));
    assert_eq!(part.properties().get("Parent"), Some(&Value::Reference(NO_REFERENCE)));
    assert_eq!(part.properties().get("None"), Some(&Value::Reference(NO_REFERENCE)));
    assert_eq!(part.properties().len(), 2);
}

#[test]
fn other_values_are_kept() {
    let kept = vec![
        ("Bool", Value::Other(Variant::Bool(false))),
        ("Int", Value::Other(Variant::Int32(-7))),
        ("Float", Value::Other(Variant::Float32(1.5))),
        ("Text", text("hello")),
        ("Stamp", Value::UniqueId(UniqueStamp { index: 9, time: 8, random: 7 })),
    ];
    let mut given = Properties::new();
    for (key, value) in &kept {
        given.insert(key.to_string(), value.duplicate());
    }
    let nodes = vec![
        Node::new(1, "DataModel", "Game", Properties::new(), vec![2]),
        Node::new(2, "Part", "P", given, Vec::new()),
    ];
    let source = Document::from_nodes(1, nodes).unwrap();
    let copy = sigma(&source, BATCH);
    let root = copy.get_by_ref(copy.root_ref()).unwrap();
    let part = copy.get_by_ref(root.children()[0]).unwrap();
    assert_eq!(part.properties().len(), kept.len());
    for (key, value) in &kept {
        assert_eq!(part.properties().get(key), Some(value));
    }
}

#[test]
fn stamp_under_reserved_key_is_renewed_whatever_it_held() {
    let nodes = vec![
        Node::new(1, "DataModel", "Game", Properties::new(), vec![2, 3]),
        Node::new(2, "Part", "Text", properties(vec![("UniqueId", text("stale"))]), Vec::new()),
        Node::new(
            3,
            "Part",
            "Ref",
            properties(vec![("UniqueId", Value::Reference(2))]),
            Vec::new(),
        ),
    ];
    let source = Document::from_nodes(1, nodes).unwrap();
    let copy = sigma(&source, BATCH);
    let root = copy.get_by_ref(copy.root_ref()).unwrap();
    for child in root.children() {
        let node = copy.get_by_ref(*child).unwrap();
        match node.properties().get("UniqueId") {
            Some(Value::UniqueId(_)) | None => {}
            Some(other) => panic!("the stamp became {:?}", other),
        }
        assert!(node.properties().len() <= 1);
    }
}

#[test]
fn node_without_stamp_gets_none() {
    let source = sample();
    let copy = sigma(&source, BATCH);
    let root = copy.get_by_ref(copy.root_ref()).unwrap();
    let folder = copy.get_by_ref(root.children()[0]).unwrap();
    assert!(!folder.properties().contains_key("UniqueId"));
    assert_eq!(folder.properties().len(), 1);
}

#[test]
fn two_stamps_of_one_run_differ() {
    let stamp = UniqueStamp { index: 0, time: 0, random: 0 };
    let nodes = vec![
        Node::new(1, "DataModel", "Game", Properties::new(), vec![2, 3]),
        Node::new(2, "Part", "P", properties(vec![("UniqueId", Value::UniqueId(stamp))]), Vec::new()),
        Node::new(3, "Part", "Q", properties(vec![("UniqueId", Value::UniqueId(stamp))]), Vec::new()),
    ];
    let source = Document::from_nodes(1, nodes).unwrap();
    let copy = sigma(&source, BATCH);
    let root = copy.get_by_ref(copy.root_ref()).unwrap();
    let p = copy.get_by_ref(root.children()[0]).unwrap();
    let q = copy.get_by_ref(root.children()[1]).unwrap();
    let first = p.properties().get("UniqueId").expect("the clock of this machine is set");
    let second = q.properties().get("UniqueId").expect("the clock of this machine is set");
    assert_ne!(first, second);
    assert_ne!(first, &Value::UniqueId(stamp));
    assert_ne!(second, &Value::UniqueId(stamp));
}

#[test]
fn reclone_has_the_shape_of_the_first_clone() {
    let source = sample();
    let first = sigma(&source, BATCH);
    let second = sigma(&first, BATCH);
    assert!(same_shape(&first, first.root_ref(), &second, second.root_ref()));
    let mut found = Vec::new();
    identities_below(&second, second.root_ref(), &mut found);
    for identity in found {
        assert!(first.get_by_ref(identity).is_none());
    }
}

#[test]
fn batch_size_plays_no_part() {
    let mut nodes = vec![Node::new(1, "DataModel", "Game", Properties::new(), (2..12).collect())];
    for identity in 2..12u128 {
        nodes.push(Node::new(
            identity,
            "Folder",
            &format!("F{}", identity),
            properties(vec![("Order", Value::Other(Variant::Int64(identity as i64)))]),
            Vec::new(),
        ));
    }
    let source = Document::from_nodes(1, nodes).unwrap();
    let single = sigma(&source, 1);
    for size in [2usize, 3, 10, 11, 1000] {
        let other = sigma(&source, size);
        assert!(same_shape(&single, single.root_ref(), &other, other.root_ref()));
        let left = single.get_by_ref(single.root_ref()).unwrap();
        let right = other.get_by_ref(other.root_ref()).unwrap();
        assert_eq!(right.children().len(), 10);
        for (x, y) in left.children().iter().zip(right.children().iter()) {
            let a = single.get_by_ref(*x).unwrap();
            let b = other.get_by_ref(*y).unwrap();
            assert_eq!(a.properties().get("Order"), b.properties().get("Order"));
        }
    }
}

#[test]
fn clone_lists_properties_in_key_order() {
    let given = properties(vec![
        ("Zeta", text("z")),
        ("Alpha", text("a")),
        ("UniqueId", Value::UniqueId(UniqueStamp { index: 1, time: 1, random: 1 })),
        ("Mid", text("m")),
    ]);
    let nodes = vec![
        Node::new(1, "DataModel", "Game", Properties::new(), vec![2]),
        Node::new(2, "Part", "P", given, Vec::new()),
    ];
    let source = Document::from_nodes(1, nodes).unwrap();
    let copy = sigma(&source, BATCH);
    let root = copy.get_by_ref(copy.root_ref()).unwrap();
    let part = copy.get_by_ref(root.children()[0]).unwrap();
    let properties = part.properties();
    let keys: Vec<&str> = (0..properties.len()).map(|i| properties.key(i)).collect();
    let mut sorted = keys.clone();
    sorted.sort();
    assert_eq!(keys, sorted);
    assert!(keys.contains(&"Alpha") && keys.contains(&"Mid") && keys.contains(&"Zeta"));
}

#[test]
fn skibidi_clones_one_subtree() {
    let source = sample();
    let part = source.get_by_ref(20).unwrap();
    let builder = skibidi(part, &source);
    assert_eq!(builder.class(), "Part");
    assert_eq!(builder.name(), "B");
    assert_eq!(builder.child_count(), 1);
    assert_eq!(builder.child(0).class(), "Decal");
    assert_eq!(builder.child(0).child_count(), 0);
    assert_ne!(builder.referent(), builder.child(0).referent());
    for identity in [builder.referent(), builder.child(0).referent()] {
        assert_ne!(identity, NO_REFERENCE);
        assert!(source.get_by_ref(identity).is_none());
    }
    assert_eq!(builder.properties().get("Target"), Some(&Value::Reference(NO_REFERENCE)));
}

#[test]
fn skibidi_draws_an_identity_for_each_node() {
    let source = sample();
    let mut seen = Vec::new();
    for _ in 0..20 {
        let builder = skibidi(source.get_by_ref(20).unwrap(), &source);
        seen.push(builder.referent());
        seen.push(builder.child(0).referent());
    }
    let count = seen.len();
    seen.sort();
    seen.dedup();
    assert_eq!(seen.len(), count);
}

#[test]
fn skibidi_leaves_the_source_as_it_was() {
    let source = sample();
    let _ = skibidi(source.get_by_ref(1).unwrap(), &source);
    let part = source.get_by_ref(20).unwrap();
    assert_eq!(part.properties().get("Target"), Some(&Value::Reference(10)));
    assert_eq!(
        part.properties().get("UniqueId"),
        Some(&Value::UniqueId(UniqueStamp { index: 1, time: 2, random: 3 }))
    );
    assert_eq!(part.children(), &vec![21u128]);
}

#[test]
fn reidentify_keeps_what_is_free() {
    let source = sample();
    let mut mint = Mint::new();
    let builder = NodeBuilder::new("Model")
        .with_referent(100)
        .with_name("Car")
        .with_property("Tag", text("t"))
        .with_child(NodeBuilder::new("Part").with_referent(101))
        .with_child(NodeBuilder::new("Part").with_referent(102));
    let settled = mint.reidentify(&source, builder);
    assert_eq!(settled.referent(), 100);
    assert_eq!(settled.child(0).referent(), 101);
    assert_eq!(settled.child(1).referent(), 102);
    assert_eq!(settled.class(), "Model");
    assert_eq!(settled.name(), "Car");
    assert_eq!(settled.properties().get("Tag"), Some(&text("t")));
    assert_eq!(settled.child_count(), 2);
}

#[test]
fn reidentify_replaces_what_is_taken() {
    let source = sample();
    let mut mint = Mint::new();
    assert_eq!(mint.settle(&source, 11), 11);
    let builder = NodeBuilder::new("Model")
        .with_referent(10)
        .with_child(NodeBuilder::new("Part").with_referent(20))
        .with_child(NodeBuilder::new("Part"))
        .with_child(NodeBuilder::new("Part").with_referent(22));
    let settled = mint.reidentify(&source, builder);
    assert_eq!(settled.child(0).referent(), 22);
    assert_eq!(settled.child(1).referent(), 2);
    assert_eq!(settled.child(2).referent(), 23);
    assert_eq!(settled.referent(), 12);
}

#[test]
fn reidentify_settles_children_before_their_parent() {
    let source = sample();
    let mut mint = Mint::new();
    let builder = NodeBuilder::new("Model")
        .with_referent(5)
        .with_child(NodeBuilder::new("Part").with_referent(5).with_child(NodeBuilder::new("Decal").with_referent(5)));
    let settled = mint.reidentify(&source, builder);
    assert_eq!(settled.child(0).child(0).referent(), 5);
    assert_eq!(settled.child(0).referent(), 6);
    assert_eq!(settled.referent(), 7);
    assert_eq!(settled.child(0).child(0).class(), "Decal");
}

#[test]
fn clone_child_passes_over_what_does_not_resolve() {
    let source = sample();
    assert!(clone_child(404, &source).is_none());
    assert!(clone_child(NO_REFERENCE, &source).is_none());
    let clone = clone_child(10, &source).unwrap();
    assert_eq!(clone.class(), "Folder");
    assert_eq!(clone.properties().get("Tag"), Some(&text("x")));
}

#[test]
fn process_keeps_the_order_of_the_batch() {
    let source = sample();
    let builders = process(vec![20, 404, 10, 21, 10], &source);
    let classes: Vec<&str> = builders.iter().map(NodeBuilder::class).collect();
    assert_eq!(classes, vec!["Part", "Folder", "Decal", "Folder"]);
    assert_eq!(builders[0].child_count(), 1);
    assert_ne!(builders[1].referent(), builders[3].referent());
    assert!(process(Vec::new(), &source).is_empty());
    assert!(process(vec![404, 405], &source).is_empty());
}

#[test]
fn process_clones_a_large_batch_in_order() {
    let mut nodes = vec![Node::new(1, "DataModel", "Game", Properties::new(), (2..502).collect())];
    for identity in 2..502u128 {
        nodes.push(leaf(identity, "Folder", &format!("F{}", identity)));
    }
    let source = Document::from_nodes(1, nodes).unwrap();
    let builders = process((2..502).rev().collect(), &source);
    assert_eq!(builders.len(), 500);
    for (place, builder) in builders.iter().enumerate() {
        assert_eq!(builder.name(), format!("F{}", 501 - place));
    }
}

#[test]
fn aggregator_starts_with_a_lone_root() {
    let source = sample();
    let new_dom = Aggregator::new(&source).finish();
    let root = new_dom.get_by_ref(new_dom.root_ref()).unwrap();
    assert_eq!(root.class(), "DataModel");
    assert_eq!(root.name(), "DataModel");
    assert!(root.children().is_empty());
    assert!(source.get_by_ref(new_dom.root_ref()).is_none());
    assert_ne!(new_dom.root_ref(), NO_REFERENCE);
}

#[test]
fn aggregator_attaches_in_the_order_given() {
    let source = sample();
    let mut aggregator = Aggregator::new(&source);
    aggregator.attach(&source, process(vec![20], &source));
    aggregator.attach(&source, Vec::new());
    aggregator.attach(&source, process(vec![10, 21], &source));
    let new_dom = aggregator.finish();
    let root = new_dom.get_by_ref(new_dom.root_ref()).unwrap();
    let classes: Vec<&str> =
        root.children().iter().map(|child| new_dom.get_by_ref(*child).unwrap().class()).collect();
    assert_eq!(classes, vec!["Part", "Folder", "Decal"]);
}

#[test]
fn aggregator_settles_identities_that_collide() {
    let source = sample();
    let mut aggregator = Aggregator::new(&source);
    let twins = vec![
        NodeBuilder::new("Folder").with_referent(10).with_name("First"),
        NodeBuilder::new("Folder").with_referent(77).with_name("Second"),
        NodeBuilder::new("Folder").with_referent(77).with_name("Third"),
        NodeBuilder::new("Folder").with_name("Fourth"),
    ];
    aggregator.attach(&source, twins);
    let new_dom = aggregator.finish();
    let root = new_dom.get_by_ref(new_dom.root_ref()).unwrap();
    assert_eq!(root.children().len(), 4);
    let names: Vec<&str> =
        root.children().iter().map(|child| new_dom.get_by_ref(*child).unwrap().name()).collect();
    assert_eq!(names, vec!["First", "Second", "Third", "Fourth"]);
    let mut identities = root.children().clone();
    identities.push(new_dom.root_ref());
    for identity in &identities {
        assert_ne!(*identity, NO_REFERENCE);
        assert!(source.get_by_ref(*identity).is_none());
    }
    assert_eq!(root.children()[1], 77);
    identities.sort();
    identities.dedup();
    assert_eq!(identities.len(), 5);
}

#[test]
fn every_node_of_a_clone_has_one_parent() {
    let source = sample();
    let copy = sigma(&source, 1);
    let mut found = Vec::new();
    identities_below(&copy, copy.root_ref(), &mut found);
    for identity in &found {
        let parents = found
            .iter()
            .map(|parent| copy.get_by_ref(*parent).unwrap())
            .map(|parent| parent.children().iter().filter(|child| *child == identity).count())
            .sum::<usize>();
        if *identity == copy.root_ref() {
            assert_eq!(parents, 0);
        } else {
            assert_eq!(parents, 1);
        }
    }
}
