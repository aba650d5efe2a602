use zkopml::inputs::{dim_param_value, input_shape, inputs_to_supply, Dim};
use zkopml::tensor::{ElemType, Tensor};
use zkopml::tensor_map::TensorMap;

#[test]
fn known_dimension_parameters() {
    assert_eq!(dim_param_value(&"batch_size".to_string()), Some(1));
    assert_eq!(dim_param_value(&"decoder_sequence_length".to_string()), Some(2));
    assert_eq!(dim_param_value(&"encoder_sequence_length / 2".to_string()), Some(1));
    assert_eq!(dim_param_value(&"sequence_length".to_string()), Some(32));
    assert_eq!(dim_param_value(&"encoder_sequence_length".to_string()), Some(2));
    assert_eq!(dim_param_value(&"width".to_string()), None);
}

#[test]
fn shape_of_declared_input() {
    let dims = vec![Dim::Param("batch_size".to_string()), Dim::Value(3), Dim::Value(224)];
    assert_eq!(input_shape(&dims), Ok(vec![1, 3, 224]));
    let bad = vec![Dim::Value(3), Dim::Param("height".to_string())];
    assert_eq!(input_shape(&bad), Err(1));
    assert_eq!(input_shape(&vec![Dim::Value(-1)]), Err(0));
    assert_eq!(input_shape(&vec![]), Ok(vec![]));
}

#[test]
fn initializers_need_no_input() {
    let mut inits = TensorMap::new();
    inits.insert("w".to_string(), Tensor::new(ElemType::F32, vec![1], vec![0]).unwrap());
    let declared = vec!["x".to_string(), "w".to_string(), "mask".to_string()];
    assert_eq!(inputs_to_supply(&declared, &inits), vec!["x".to_string(), "mask".to_string()]);
}
