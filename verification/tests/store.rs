use nn::autograd::{GradStore, Op, ParamId, Tape};
use nn::tensor::{NodeId, Tensor};

#[test]
fn grad_store_insert_get_replace() {
    let mut s: GradStore<Vec<f32>> = GradStore::new();
    assert!(s.is_empty());
    s.insert(ParamId(3), vec![1.0, 2.0]);
    s.insert(ParamId(9), vec![0.5]);
    assert_eq!(s.len(), 2);
    assert_eq!(s.get(ParamId(3)), Some(&vec![1.0, 2.0]));
    assert_eq!(s.get(ParamId(4)), None);
    s.insert(ParamId(3), vec![7.0]);
    assert_eq!(s.len(), 2);
    assert_eq!(s.get(ParamId(3)), Some(&vec![7.0]));
    let mut ids = s.ids();
    ids.sort_by_key(|p| p.0);
    assert_eq!(ids, vec![ParamId(3), ParamId(9)]);
    assert!(!s.is_empty());
}

#[test]
fn tensor_keeps_shape_and_values() {
    let t = Tensor::from_data(vec![1.0f32, 2.0, 3.0, 4.0, 5.0, 6.0], &[2, 3]);
    assert_eq!(t.shape(), &[2, 3]);
    assert_eq!(t.rank(), 2);
    assert_eq!(t.numel(), 6);
    assert_eq!(t.data()[4], 5.0);
    assert_eq!(t.item(), None);
    assert_eq!(t.node(), None);
}

#[test]
fn tensor_scalar_item_and_set() {
    let mut t = Tensor::filled(&[], 0.0f32);
    assert_eq!(t.numel(), 1);
    assert_eq!(t.item(), Some(0.0));
    t.set(0, 2.5);
    assert_eq!(t.item(), Some(2.5));
    let z = Tensor::filled(&[3, 0], 1u8);
    assert_eq!(z.numel(), 0);
}

#[test]
fn tensor_clone_and_node() {
    let t = Tensor::with_node(vec![1, 2], vec![2], NodeId(5));
    let c = t.clone();
    assert_eq!(c.node(), Some(NodeId(5)));
    assert_eq!(c.data(), &[1, 2]);
    assert_eq!(c.shape(), &[2]);
}

#[test]
fn tape_records_nodes_in_order() {
    let mut tape: Tape<f32> = Tape::new();
    let x = Tensor::from_data(vec![1.0, -2.0], &[2]);
    let w = tape.leaf(&x, Some(ParamId(7)));
    assert_eq!(w.node(), Some(NodeId(0)));
    assert_eq!(w.data(), &[1.0, -2.0]);
    let id = tape.ensure_node(&w);
    assert_eq!(id, NodeId(0));
    let fresh = tape.ensure_node(&x);
    assert_eq!(fresh, NodeId(1));
    let y = tape.record(Op::Relu { input: NodeId(0) }, vec![1.0, 0.0], vec![2]);
    assert_eq!(y.node(), Some(NodeId(2)));
    assert_eq!(tape.node_list().len(), 3);
    assert_eq!(tape.value(NodeId(2)), &[1.0, 0.0]);
    assert_eq!(tape.shape(NodeId(1)), &[2]);
    assert_eq!(tape.node_list()[0].param_id, Some(ParamId(7)));
    assert!(tape.node_list()[1].param_id.is_none());
    assert!(matches!(tape.node_list()[2].op, Op::Relu { input: NodeId(0) }));
    tape.clear();
    assert!(tape.node_list().is_empty());
    let again = tape.leaf(&x, None);
    assert_eq!(again.node(), Some(NodeId(0)));
}
