use arco::einsum::{einsum_targets, label_positions};
use arco::einsum::{
    check_output_labels, coefficient_labels, label_shape, parse_einsum_subscripts,
    source_labels, EinsumError, LabelSizes,
};

#[test]
fn subscripts_are_read() {
    let (inputs, output) = parse_einsum_subscripts("ij,jk->ik", 2).unwrap();
    assert_eq!(inputs, vec![vec!['i', 'j'], vec!['j', 'k']]);
    assert_eq!(output, vec!['i', 'k']);
    let (inputs, output) = parse_einsum_subscripts("i->", 1).unwrap();
    assert_eq!(inputs, vec![vec!['i']]);
    assert!(output.is_empty());
}

#[test]
fn subscript_errors() {
    assert_eq!(parse_einsum_subscripts("...i->i", 1).err(), Some(EinsumError::Ellipsis));
    assert_eq!(parse_einsum_subscripts("ij", 1).err(), Some(EinsumError::MissingOutput));
    assert_eq!(
        parse_einsum_subscripts("i,j->ij", 1).err(),
        Some(EinsumError::OperandCount { expected: 2, received: 1 })
    );
    assert_eq!(parse_einsum_subscripts("i1->i", 1).err(), Some(EinsumError::NonAlphabetic));
    assert_eq!(parse_einsum_subscripts("ii->i", 1).err(), Some(EinsumError::RepeatedLabel));
    assert_eq!(parse_einsum_subscripts("i->ii", 1).err(), Some(EinsumError::RepeatedLabel));
    assert_eq!(parse_einsum_subscripts("i-->i", 1).err(), Some(EinsumError::NonAlphabetic));
}

#[test]
fn label_sizes_must_agree() {
    let sizes = LabelSizes::new().add_operand(&['i', 'j'], &[2, 3]).unwrap();
    assert_eq!(sizes.get('j'), Some(3));
    let sizes = sizes.add_operand(&['j', 'k'], &[3, 4]).unwrap();
    assert_eq!(sizes.get('k'), Some(4));
    assert_eq!(
        sizes.add_operand(&['k'], &[5]).err(),
        Some(EinsumError::IncompatibleLabel { label: 'k', existing: 4, size: 5 })
    );
    assert_eq!(
        LabelSizes::new().add_operand(&['i'], &[2, 2]).err(),
        Some(EinsumError::RankMismatch { operand_rank: 2, subscript_rank: 1 })
    );
}

#[test]
fn coefficient_tensor_labels() {
    let sizes = LabelSizes::new()
        .add_operand(&['i', 'j'], &[2, 3])
        .unwrap()
        .add_operand(&['j', 'k'], &[3, 4])
        .unwrap();
    assert_eq!(check_output_labels(&sizes, &['i', 'k']), Ok(()));
    assert_eq!(check_output_labels(&sizes, &['q']), Err(EinsumError::UnknownOutputLabel('q')));
    let labels = coefficient_labels(&['i', 'k'], &['j', 'k']);
    assert_eq!(labels, vec!['i', 'k', 'j']);
    assert_eq!(label_shape(&sizes, &labels), vec![2, 4, 3]);
    assert_eq!(source_labels(&labels, &[vec!['i', 'j']]), vec!['i', 'j']);
}

#[test]
fn coefficients_are_routed_to_their_cells() {
    // "ij,jk->ik" with the expression operand "jk": coefficient labels i, k, j
    let labels = ['i', 'k', 'j'];
    let expr_positions = label_positions(&labels, &['j', 'k']).unwrap();
    assert_eq!(expr_positions, vec![2, 1]);
    let output_positions = label_positions(&labels, &['i', 'k']).unwrap();
    assert_eq!(output_positions, vec![0, 1]);
    assert_eq!(label_positions(&labels, &['q']), None);
    let targets = einsum_targets(&[2, 4, 3], &expr_positions, &[3, 4], &output_positions, &[2, 4]);
    assert_eq!(targets.len(), 24);
    for i in 0..2 {
        for k in 0..4 {
            for j in 0..3 {
                let f = i * 12 + k * 3 + j;
                assert_eq!(targets[f], (j * 4 + k, i * 4 + k));
            }
        }
    }
    // a scalar output gathers everything into its only cell
    let scalar = einsum_targets(&[3], &[0], &[3], &[], &[]);
    assert_eq!(scalar, vec![(0, 0), (1, 0), (2, 0)]);
}
