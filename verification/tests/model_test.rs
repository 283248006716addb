use bubblepop::model::{
    check_allocate_status, check_input_bytes, check_input_len, check_input_rank, check_input_shape,
    check_input_type, check_invoke_status, check_output_bytes, check_output_rank, check_output_shape,
    check_output_type, check_tensor_counts, RuntimeStatus, TensorType, INPUT_HEIGHT, INPUT_WIDTH,
};
use bubblepop::BubblePopError;

fn model_message(r: Result<(), BubblePopError>) -> String {
    match r {
        Err(BubblePopError::ModelLoadError(m)) => m,
        other => panic!("expected ModelLoadError, got {:?}", other),
    }
}

#[test]
fn statuses() {
    assert!(check_allocate_status(RuntimeStatus::Success).is_ok());
    match check_allocate_status(RuntimeStatus::UnresolvedOps) {
        Err(BubblePopError::RuntimeError(m)) => {
            assert_eq!(m, "TfLiteInterpreterAllocateTensors failed with status: UnresolvedOps")
        }
        other => panic!("{:?}", other),
    }
    match check_invoke_status(RuntimeStatus::Error) {
        Err(BubblePopError::RuntimeError(m)) => assert_eq!(m, "TfLiteInterpreterInvoke failed with status: Error"),
        other => panic!("{:?}", other),
    }
    assert!(check_invoke_status(RuntimeStatus::Success).is_ok());
}

#[test]
fn tensor_counts() {
    assert!(check_tensor_counts(1, 2).is_ok());
    assert_eq!(
        model_message(check_tensor_counts(0, -3)),
        "Expected at least 1 input and 1 output tensor, found inputs: 0, outputs: -3"
    );
}

#[test]
fn tensor_types_and_ranks() {
    assert!(check_input_type(TensorType::Float32).is_ok());
    assert_eq!(model_message(check_input_type(TensorType::Int8)), "Expected Float32 input tensor, got type ID Int8");
    assert_eq!(model_message(check_output_type(TensorType::Text)), "Expected Float32 output tensor, got type ID String");
    assert!(check_output_rank(4).is_ok());
    assert_eq!(
        model_message(check_input_rank(3)),
        "Expected 4-dimensional input tensor [1, H, W, C], got 3 dimensions"
    );
}

#[test]
fn input_shape_and_size() {
    assert!(check_input_shape(1, INPUT_HEIGHT as i32, INPUT_WIDTH as i32, 1).is_ok());
    assert_eq!(
        model_message(check_input_shape(1, 512, 512, 3)),
        "Expected input tensor dimensions [1, 1024, 768, 1], got [1, 512, 512, 3]"
    );
    assert!(check_input_bytes(3145728).is_ok());
    assert_eq!(
        model_message(check_input_bytes(12)),
        "Input tensor byte size mismatch: expected 3145728 bytes, got 12"
    );
    assert!(check_input_len(786432).is_ok());
    match check_input_len(5) {
        Err(BubblePopError::InvalidInput(m)) => assert_eq!(m, "Expected input tensor of size 786432, got 5"),
        other => panic!("{:?}", other),
    }
}

#[test]
fn output_shape_and_size() {
    assert_eq!(check_output_shape(1, 256, 192, 3).unwrap(), (256, 192, 3));
    match check_output_shape(1, 0, 192, -1) {
        Err(BubblePopError::ModelLoadError(m)) => assert_eq!(m, "Invalid output tensor dimensions: [1, 0, 192, -1]"),
        other => panic!("{:?}", other),
    }
    assert!(check_output_bytes(256, 192, 3, 589824).is_ok());
    assert_eq!(
        model_message(check_output_bytes(2, 2, 1, 3)),
        "Output tensor byte size mismatch: expected 16 bytes, got 3"
    );
}
