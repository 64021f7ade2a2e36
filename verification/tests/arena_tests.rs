use nrtrt::ray::Ray;
use nrtrt::raytree::{NodeId, RayArena};

#[test]
fn add_nodes() {
    let mut ray_arena = RayArena::new(10);
    let root_node = ray_arena.add_node(NodeId::Root, &Ray::new_empty());
    let new_node_id_1 = ray_arena.add_node(root_node, &Ray::new_empty());
    let new_node_id_2 = ray_arena.add_node(root_node, &Ray::new_empty());
    let new_node_id_3 = ray_arena.add_node(root_node, &Ray::new_empty());

    //Check if correct amount of nodes were added
    assert_eq!(ray_arena.num_nodes(), 4);

    //Check if all of three nodes were added to root node and the parent of root node is "Root"
    assert_eq!(ray_arena.get_node(root_node).unwrap().child.len(), 3);
    assert_eq!(ray_arena.get_node(root_node).unwrap().parent, NodeId::Root);

    //Check if new nodes have no childs
    assert_eq!(ray_arena.get_node(new_node_id_1).unwrap().child.len(), 0);
    assert_eq!(ray_arena.get_node(new_node_id_2).unwrap().child.len(), 0);
    assert_eq!(ray_arena.get_node(new_node_id_3).unwrap().child.len(), 0);

    //Check if parent of the new nodes is set to root_node
    assert_eq!(ray_arena.get_node(new_node_id_1).unwrap().parent, root_node);
}

#[test]
fn add_nested_nodes() {
    let mut ray_arena = RayArena::new(10);

    let root_node = ray_arena.add_node(NodeId::Root, &Ray::new_empty());
    let child_1 = ray_arena.add_node(root_node, &Ray::new_empty());
    let child_2 = ray_arena.add_node(child_1, &Ray::new_empty());
    let child_3 = ray_arena.add_node(child_2, &Ray::new_empty());

    assert_eq!(ray_arena.get_node(root_node).unwrap().child.len(), 1);
    assert_eq!(ray_arena.get_node(child_1).unwrap().child.len(), 1);
    assert_eq!(ray_arena.get_node(child_2).unwrap().child.len(), 1);
    assert_eq!(ray_arena.get_node(child_3).unwrap().child.len(), 0);
}

#[test]
fn check_max_recursion_depth() {
    let mut ray_arena = RayArena::new(2);

    let root_node = ray_arena.add_node(NodeId::Root, &Ray::new_empty());
    let child_1 = ray_arena.add_node(root_node, &Ray::new_empty());
    let child_2 = ray_arena.add_node(child_1, &Ray::new_empty());
    let child_3 = ray_arena.add_node(child_2, &Ray::new_empty());
    let child_4 = ray_arena.add_node(child_3, &Ray::new_empty());

    //Check if only three items were added
    assert_eq!(ray_arena.num_nodes(), 3);

    assert_eq!(root_node, NodeId::Parent(0));
    assert_eq!(child_1, NodeId::Parent(1));
    assert_eq!(child_2, NodeId::Parent(2));
    //When recursion depth will get above max_recursion_depth, add_node should return Invalid
    assert_eq!(child_3, NodeId::Invalid);
    assert_eq!(child_4, NodeId::Invalid);
}

#[test]
fn get_last_nodes() {
    let mut ray_arena = RayArena::new(5);

    let root_node = ray_arena.add_node(NodeId::Root, &Ray::new_empty());
    let child_1 = ray_arena.add_node(root_node, &Ray::new_empty());
    let child_2 = ray_arena.add_node(root_node, &Ray::new_empty());
    let child_3 = ray_arena.add_node(child_1, &Ray::new_empty());
    let _child_4 = ray_arena.add_node(child_3, &Ray::new_empty());
    let _child_5 = ray_arena.add_node(child_1, &Ray::new_empty());
    let child_6 = ray_arena.add_node(child_2, &Ray::new_empty());

    /*
    Tree looks like this:

                root_node
                /       \
        child_1         child_2
        /      \            |
    child_3     child_5     child_6
        |
    child_4
    */
    assert_eq!(ray_arena.get_node(child_2).unwrap().child.len(), 1);
    assert_eq!(ray_arena.get_last_nodes(root_node), vec!(4, 5, 6));
    assert_eq!(ray_arena.get_last_nodes(child_1), vec!(4, 5));
    assert_eq!(ray_arena.get_last_nodes(child_2), vec!(6));
    assert_eq!(ray_arena.get_last_nodes(child_6), vec!(6));
}

#[test]
fn remove_node_with_childs() {
    let mut ray_arena = RayArena::new(5);

    let root_node = ray_arena.add_node(NodeId::Root, &Ray::new_empty());
    let child_1 = ray_arena.add_node(root_node, &Ray::new_empty());
    let child_2 = ray_arena.add_node(root_node, &Ray::new_empty());
    let child_3 = ray_arena.add_node(child_1, &Ray::new_empty());
    let child_4 = ray_arena.add_node(child_3, &Ray::new_empty());
    let child_5 = ray_arena.add_node(child_1, &Ray::new_empty());
    let child_6 = ray_arena.add_node(child_2, &Ray::new_empty());

    /*
    Tree looks like this:

                root_node
                /       \
        child_1         child_2
        /      \            |
    child_3     child_5     child_6
        |
    child_4
    */

    ray_arena.remove_node_with_childs(child_1);
    assert!(ray_arena.get_node(child_1).is_none());
    assert!(ray_arena.get_node(child_3).is_none());
    assert!(ray_arena.get_node(child_4).is_none());
    assert!(ray_arena.get_node(child_5).is_none());

    assert!(ray_arena.get_node(root_node).is_some());
    assert!(ray_arena.get_node(child_2).is_some());
    assert!(ray_arena.get_node(child_6).is_some());

    assert_eq!(ray_arena.get_node(root_node).unwrap().child, vec!(2));
}

#[test]
fn depth_bound_rejects_without_growing() {
    let mut arena = RayArena::new(0);
    let root = arena.add_node(NodeId::Root, &Ray::new_empty());
    assert_eq!(arena.num_nodes(), 1);
    // at depth == max_depth every request is rejected and nothing grows
    let rejected = arena.add_node(root, &Ray::new_empty());
    assert_eq!(rejected, NodeId::Invalid);
    assert_eq!(arena.num_nodes(), 1);
}
