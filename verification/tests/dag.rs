use mortar::dag::{DagError, DAG};

fn names(list: &[&str]) -> Vec<String> {
    list.iter().map(|name| name.to_string()).collect()
}

fn sorted(layers: Vec<Vec<String>>) -> Vec<Vec<String>> {
    layers
        .into_iter()
        .map(|mut layer| {
            layer.sort();
            layer
        })
        .collect()
}

#[test]
fn transitive_reduction() {
    let mut graph = DAG::new();

    graph.add_node("a".to_string(), None);
    graph.add_node("b".to_string(), Some(vec!["a".to_string()]));

    assert_eq!(
        graph.transitive_reduction(),
        vec![vec!["a".to_string()], vec!["b".to_string()]]
    );
}

#[test]
fn diamond_has_three_layers() {
    let mut graph = DAG::new();
    graph.add_node("a".to_string(), Some(vec![]));
    graph.add_node("b".to_string(), Some(names(&["a"])));
    graph.add_node("c".to_string(), Some(names(&["a"])));
    graph.add_node("d".to_string(), Some(names(&["b", "c"])));
    let layers = graph.layers().unwrap();
    assert_eq!(layers.len(), 3);
    assert_eq!(sorted(layers), vec![names(&["a"]), names(&["b", "c"]), names(&["d"])]);
}

#[test]
fn two_components_share_their_layers() {
    let mut graph = DAG::new();
    graph.add_node("a".to_owned(), None);
    graph.add_node("b".to_owned(), None);
    graph.add_node("c".to_owned(), Some(vec!["a".to_owned()]));
    graph.add_node("d".to_owned(), None);
    assert_eq!(graph.add_dep("d".to_owned(), "b".to_owned()), Ok(()));
    assert_eq!(
        sorted(graph.transitive_reduction()),
        vec![names(&["a", "b"]), names(&["c", "d"])]
    );
}

#[test]
fn layers_list_nodes_in_the_order_they_were_added() {
    let mut graph = DAG::new();
    for name in ["z", "m", "a", "k"] {
        graph.add_node(name.to_owned(), None);
    }
    graph.add_node("b".to_owned(), Some(names(&["a", "z"])));
    graph.add_node("y".to_owned(), Some(names(&["m"])));
    assert_eq!(
        graph.layers(),
        Ok(vec![names(&["z", "m", "a", "k"]), names(&["b", "y"])])
    );
}

#[test]
fn a_chain_has_a_layer_for_each_node() {
    let mut graph = DAG::new();
    graph.add_node("4".to_owned(), Some(names(&["3"])));
    graph.add_node("3".to_owned(), Some(names(&["2"])));
    graph.add_node("2".to_owned(), Some(names(&["1"])));
    graph.add_node("1".to_owned(), None);
    assert_eq!(
        graph.layers(),
        Ok(vec![names(&["1"]), names(&["2"]), names(&["3"]), names(&["4"])])
    );
}

#[test]
fn a_node_stands_behind_its_deepest_dependency() {
    let mut graph = DAG::new();
    graph.add_node("a".to_owned(), None);
    graph.add_node("b".to_owned(), Some(names(&["a"])));
    graph.add_node("c".to_owned(), Some(names(&["b"])));
    graph.add_node("top".to_owned(), Some(names(&["a", "c"])));
    assert_eq!(
        graph.layers(),
        Ok(vec![names(&["a"]), names(&["b"]), names(&["c"]), names(&["top"])])
    );
}

#[test]
fn an_empty_graph_has_one_empty_layer() {
    assert_eq!(DAG::new().layers(), Ok(vec![vec![]]));
}

#[test]
fn dependencies_that_are_no_nodes_do_not_count() {
    let mut graph = DAG::new();
    graph.add_node("a".to_owned(), Some(names(&["ghost"])));
    assert_eq!(graph.add_dep("a".to_owned(), "other".to_owned()), Ok(()));
    assert_eq!(graph.layers(), Ok(vec![names(&["a"])]));
    assert_eq!(graph.deps("a".to_owned()), Ok(names(&["ghost", "other"])));
}

#[test]
fn repeated_dependencies_do_no_harm() {
    let mut graph = DAG::new();
    graph.add_node("a".to_owned(), None);
    graph.add_node("b".to_owned(), Some(names(&["a", "a"])));
    assert_eq!(graph.add_dep("b".to_owned(), "a".to_owned()), Ok(()));
    assert_eq!(graph.deps("b".to_owned()), Ok(names(&["a", "a", "a"])));
    assert_eq!(graph.layers(), Ok(vec![names(&["a"]), names(&["b"])]));
}

#[test]
fn a_cycle_is_detected() {
    let mut graph = DAG::new();
    graph.add_node("a".to_owned(), Some(names(&["c"])));
    graph.add_node("b".to_owned(), Some(names(&["a"])));
    graph.add_node("c".to_owned(), Some(names(&["b"])));
    graph.add_node("free".to_owned(), None);
    assert_eq!(graph.layers(), Err(DagError::CycleDetected));
}

#[test]
fn a_node_that_depends_on_itself_is_a_cycle() {
    let mut graph = DAG::new();
    graph.add_node("a".to_owned(), Some(names(&["a"])));
    assert_eq!(graph.layers(), Err(DagError::CycleDetected));
}

#[test]
fn adding_a_node_again_replaces_its_dependencies() {
    let mut graph = DAG::new();
    graph.add_node("a".to_owned(), None);
    graph.add_node("b".to_owned(), Some(names(&["a"])));
    graph.add_node("a".to_owned(), Some(names(&["b"])));
    assert_eq!(graph.layers(), Err(DagError::CycleDetected));
    graph.add_node("b".to_owned(), None);
    assert_eq!(graph.deps("b".to_owned()), Ok(vec![]));
    assert_eq!(graph.deps("a".to_owned()), Ok(names(&["b"])));
    assert_eq!(graph.layers(), Ok(vec![names(&["b"]), names(&["a"])]));
}

#[test]
fn a_dependency_needs_its_dependent() {
    let mut graph = DAG::new();
    graph.add_node("a".to_owned(), None);
    assert_eq!(
        graph.add_dep("b".to_owned(), "a".to_owned()),
        Err(DagError::NodeNotFound("b".to_owned()))
    );
    assert_eq!(graph.deps("b".to_owned()), Err(DagError::NodeNotFound("b".to_owned())));
    assert_eq!(graph.deps("a".to_owned()), Ok(vec![]));
    assert_eq!(graph.layers(), Ok(vec![names(&["a"])]));
}

#[test]
fn reverse_dependencies_are_the_dependents() {
    let mut graph = DAG::new();
    graph.add_node("d".to_owned(), Some(names(&["b", "c"])));
    graph.add_node("a".to_owned(), None);
    graph.add_node("b".to_owned(), Some(names(&["a"])));
    graph.add_node("c".to_owned(), Some(names(&["a", "b"])));
    assert_eq!(graph.reverse_deps("a".to_owned()), names(&["b", "c"]));
    assert_eq!(graph.reverse_deps("b".to_owned()), names(&["d", "c"]));
    assert_eq!(graph.reverse_deps("d".to_owned()), names(&[]));
    assert_eq!(graph.reverse_deps("nobody".to_owned()), names(&[]));
}
