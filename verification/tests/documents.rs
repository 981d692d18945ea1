use dom_cloner::builder::NodeBuilder;
use dom_cloner::document::{Document, DocumentError, Node};
use dom_cloner::properties::Properties;
use dom_cloner::value::{Value, NO_REFERENCE};
use rbx_types::Variant;

fn leaf(identity: u128, class: &str) -> Node {
    Node::new(identity, class, class, Properties::new(), Vec::new())
}

fn error_of(outcome: Result<Document, DocumentError>) -> DocumentError {
    match outcome {
        Ok(_) => panic!("the nodes made a document"),
        Err(error) => error,
    }
}

#[test]
fn node_holds_what_it_was_given() {
    let mut properties = Properties::new();
    properties.insert("Size".to_string(), Value::Other(Variant::Int32(4)));
    let node = Node::new(5, "Part", "Brick", properties, vec![6, 7]);
    assert_eq!(node.referent(), 5);
    assert_eq!(node.class(), "Part");
    assert_eq!(node.name(), "Brick");
    assert_eq!(node.children(), &vec![6u128, 7]);
    assert_eq!(node.properties().get("Size"), Some(&Value::Other(Variant::Int32(4))));
}

#[test]
fn document_finds_nodes_by_identity() {
    let nodes = vec![
        Node::new(1, "DataModel", "Game", Properties::new(), vec![2, 3]),
        leaf(2, "Folder"),
        leaf(3, "Part"),
    ];
    let document = Document::from_nodes(1, nodes).unwrap();
    assert_eq!(document.root_ref(), 1);
    assert_eq!(document.get_by_ref(1).unwrap().name(), "Game");
    assert_eq!(document.get_by_ref(2).unwrap().class(), "Folder");
    assert_eq!(document.get_by_ref(3).unwrap().class(), "Part");
    assert!(document.get_by_ref(4).is_none());
    assert!(document.get_by_ref(NO_REFERENCE).is_none());
}

#[test]
fn document_refuses_null_identity() {
    let nodes = vec![leaf(1, "DataModel"), leaf(0, "Folder")];
    assert_eq!(error_of(Document::from_nodes(1, nodes)), DocumentError::NullIdentity);
}

#[test]
fn document_refuses_duplicate_identity() {
    let nodes = vec![leaf(1, "DataModel"), leaf(2, "Folder"), leaf(2, "Part")];
    assert_eq!(error_of(Document::from_nodes(1, nodes)), DocumentError::DuplicateIdentity);
}

#[test]
fn document_reports_null_before_duplicate() {
    let nodes = vec![leaf(2, "Folder"), leaf(2, "Part"), leaf(0, "Decal")];
    assert_eq!(error_of(Document::from_nodes(2, nodes)), DocumentError::NullIdentity);
}

#[test]
fn document_refuses_child_before_parent() {
    let nodes = vec![
        leaf(2, "Folder"),
        Node::new(1, "DataModel", "Game", Properties::new(), vec![2]),
    ];
    assert_eq!(error_of(Document::from_nodes(1, nodes)), DocumentError::ChildBeforeParent);
}

#[test]
fn document_refuses_node_that_is_its_own_child() {
    let nodes = vec![Node::new(1, "DataModel", "Game", Properties::new(), vec![1])];
    assert_eq!(error_of(Document::from_nodes(1, nodes)), DocumentError::ChildBeforeParent);
}

#[test]
fn document_refuses_cycle() {
    let nodes = vec![
        Node::new(1, "Folder", "A", Properties::new(), vec![2]),
        Node::new(2, "Folder", "B", Properties::new(), vec![1]),
    ];
    assert_eq!(error_of(Document::from_nodes(1, nodes)), DocumentError::ChildBeforeParent);
}

#[test]
fn document_lets_dangling_child_stand() {
    let nodes = vec![Node::new(1, "DataModel", "Game", Properties::new(), vec![9])];
    let document = Document::from_nodes(1, nodes).unwrap();
    assert_eq!(document.get_by_ref(1).unwrap().children(), &vec![9u128]);
    assert!(document.get_by_ref(9).is_none());
}

#[test]
fn with_root_makes_a_lone_root() {
    let document = Document::with_root(42, "DataModel");
    assert_eq!(document.root_ref(), 42);
    let root = document.get_by_ref(42).unwrap();
    assert_eq!(root.class(), "DataModel");
    assert_eq!(root.name(), "DataModel");
    assert_eq!(root.properties().len(), 0);
    assert!(root.children().is_empty());
}

#[test]
fn attach_hangs_the_subtree_below_the_root() {
    let mut document = Document::with_root(1, "DataModel");
    let subtree = NodeBuilder::new("Model")
        .with_referent(2)
        .with_name("Car")
        .with_property("Speed", Value::Other(Variant::Int32(90)))
        .with_child(NodeBuilder::new("Part").with_referent(3).with_name("Wheel"))
        .with_child(
            NodeBuilder::new("Part")
                .with_referent(4)
                .with_name("Door")
                .with_child(NodeBuilder::new("Decal").with_referent(5)),
        );
    assert!(document.accepts(&subtree));
    assert_eq!(document.attach(subtree), 2);
    assert_eq!(document.attach(NodeBuilder::new("Folder").with_referent(6)), 6);

    let root = document.get_by_ref(1).unwrap();
    assert_eq!(root.children(), &vec![2u128, 6]);
    let car = document.get_by_ref(2).unwrap();
    assert_eq!(car.name(), "Car");
    assert_eq!(car.class(), "Model");
    assert_eq!(car.children(), &vec![3u128, 4]);
    assert_eq!(car.properties().get("Speed"), Some(&Value::Other(Variant::Int32(90))));
    assert_eq!(document.get_by_ref(3).unwrap().name(), "Wheel");
    let door = document.get_by_ref(4).unwrap();
    assert_eq!(door.name(), "Door");
    assert_eq!(door.children(), &vec![5u128]);
    assert_eq!(document.get_by_ref(5).unwrap().class(), "Decal");
    assert_eq!(document.get_by_ref(6).unwrap().class(), "Folder");
}

#[test]
fn accepts_only_new_and_distinct_identities() {
    let document = Document::with_root(1, "DataModel");
    assert!(document.accepts(&NodeBuilder::new("Folder").with_referent(2)));
    assert!(!document.accepts(&NodeBuilder::new("Folder")));
    assert!(!document.accepts(&NodeBuilder::new("Folder").with_referent(1)));
    let twice = NodeBuilder::new("Folder")
        .with_referent(2)
        .with_child(NodeBuilder::new("Part").with_referent(3))
        .with_child(NodeBuilder::new("Part").with_referent(3));
    assert!(!document.accepts(&twice));
    let own = NodeBuilder::new("Folder")
        .with_referent(2)
        .with_child(NodeBuilder::new("Part").with_child(NodeBuilder::new("Part").with_referent(2)).with_referent(4));
    assert!(!document.accepts(&own));
    let deep = NodeBuilder::new("Folder")
        .with_referent(2)
        .with_child(NodeBuilder::new("Part").with_referent(3).with_child(NodeBuilder::new("Decal").with_referent(1)));
    assert!(!document.accepts(&deep));
    let nameless = NodeBuilder::new("Folder").with_referent(2).with_child(NodeBuilder::new("Part"));
    assert!(!document.accepts(&nameless));
}

#[test]
fn builder_is_named_after_its_class() {
    let builder = NodeBuilder::new("Folder");
    assert_eq!(builder.class(), "Folder");
    assert_eq!(builder.name(), "Folder");
    assert_eq!(builder.referent(), NO_REFERENCE);
    assert_eq!(builder.child_count(), 0);
    assert_eq!(builder.properties().len(), 0);
}

#[test]
fn builder_takes_name_property_child_and_identity() {
    let builder = NodeBuilder::new("Folder")
        .with_name("Things")
        .with_property("Tag", Value::Other(Variant::Bool(true)))
        .with_property("Tag", Value::Other(Variant::Bool(false)))
        .with_child(NodeBuilder::new("Part").with_name("One"))
        .with_child(NodeBuilder::new("Part").with_name("Two"))
        .with_referent(77);
    assert_eq!(builder.class(), "Folder");
    assert_eq!(builder.name(), "Things");
    assert_eq!(builder.referent(), 77);
    assert_eq!(builder.properties().len(), 1);
    assert_eq!(builder.properties().get("Tag"), Some(&Value::Other(Variant::Bool(false))));
    assert_eq!(builder.child_count(), 2);
    assert_eq!(builder.child(0).name(), "One");
    assert_eq!(builder.child(1).name(), "Two");
}
