use linear_algebra_compiler::cost::AstDepthCostModel;

#[test]
fn fold_takes_deepest_child_plus_head() {
    let m = AstDepthCostModel;
    assert_eq!(m.fold("SAdd", &[1, 3, 2], 1), 4);
    assert_eq!(m.fold("Num", &[], 1), 1);
    assert_eq!(m.fold("MMul", &[0, 0], 1), 1);
    assert_eq!(m.fold("Scale", &[5, 5], 2), 7);
}

#[test]
fn fold_saturates() {
    let m = AstDepthCostModel;
    assert_eq!(m.fold("SAdd", &[usize::MAX - 1, 0], 5), usize::MAX);
    assert_eq!(m.fold("SAdd", &[usize::MAX], 0), usize::MAX);
}

#[test]
fn leaves_containers_and_nodes() {
    let m = AstDepthCostModel;
    assert_eq!(m.enode_cost(), 1);
    assert_eq!(m.base_value_cost(), 0);
    assert_eq!(m.container_cost(&[]), 0);
    assert_eq!(m.container_cost(&[2, 9, 4]), 9);
}

#[test]
fn depth_of_a_small_term() {
    // (SAdd (Num 1) (SMul a b)): leaves cost 0, every node adds one level
    let m = AstDepthCostModel;
    let leaf = m.base_value_cost();
    let num = m.fold("Num", &[leaf], m.enode_cost());
    let a = m.fold("SVar", &[leaf], m.enode_cost());
    let b = m.fold("SVar", &[leaf], m.enode_cost());
    let mul = m.fold("SMul", &[a, b], m.enode_cost());
    let add = m.fold("SAdd", &[num, mul], m.enode_cost());
    assert_eq!(add, 3);
}
