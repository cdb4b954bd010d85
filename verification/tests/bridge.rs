use nn::bridge::{
    activation_kind, batch_rows, loss_kind, optim_kind, plan_mlp, train_batch_rows,
    ActivationKind, BatchError, LayerSpec, LossKind, OptimKind,
};

#[test]
fn plan_puts_relu_between_hidden_layers_only() {
    let plan = plan_mlp(&[2, 16, 8, 1]).unwrap();
    assert_eq!(
        plan.layers,
        vec![
            LayerSpec::Linear { in_dim: 2, out_dim: 16 },
            LayerSpec::Relu,
            LayerSpec::Linear { in_dim: 16, out_dim: 8 },
            LayerSpec::Relu,
            LayerSpec::Linear { in_dim: 8, out_dim: 1 },
        ]
    );
    assert_eq!((plan.in_dim, plan.out_dim), (2, 1));
}

#[test]
fn plan_of_two_sizes_is_one_linear_layer() {
    let plan = plan_mlp(&[3, 4]).unwrap();
    assert_eq!(plan.layers, vec![LayerSpec::Linear { in_dim: 3, out_dim: 4 }]);
}

#[test]
fn plan_needs_two_sizes() {
    assert!(plan_mlp(&[5]).is_none());
    assert!(plan_mlp(&[]).is_none());
}

#[test]
fn names_select_kinds() {
    assert_eq!(loss_kind("mse"), Some(LossKind::Mse));
    assert_eq!(loss_kind("huber"), Some(LossKind::Huber));
    assert_eq!(loss_kind("cross_entropy"), Some(LossKind::CrossEntropy));
    assert_eq!(loss_kind("MSE"), None);
    assert_eq!(optim_kind("sgd"), Some(OptimKind::Sgd));
    assert_eq!(optim_kind("momentum"), Some(OptimKind::Momentum));
    assert_eq!(optim_kind("adam"), Some(OptimKind::Adam));
    assert_eq!(optim_kind("adamw"), Some(OptimKind::AdamW));
    assert_eq!(optim_kind("adam "), None);
    assert_eq!(activation_kind("relu"), Some(ActivationKind::Relu));
    assert_eq!(activation_kind("sigmoid"), Some(ActivationKind::Sigmoid));
    assert_eq!(activation_kind("tanh"), Some(ActivationKind::Tanh));
    assert_eq!(activation_kind(""), None);
}

#[test]
fn batches_split_into_whole_rows() {
    assert_eq!(batch_rows(12, 3), Ok(4));
    assert_eq!(batch_rows(0, 3), Ok(0));
    assert_eq!(batch_rows(10, 3), Err(BatchError::XNotDivisible));
    assert_eq!(train_batch_rows(8, 4, 2, 1), Ok(4));
    assert_eq!(train_batch_rows(8, 5, 2, 1), Err(BatchError::YMismatch));
    assert_eq!(train_batch_rows(7, 4, 2, 1), Err(BatchError::XNotDivisible));
}
