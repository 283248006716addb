use vstd::prelude::*;

use crate::error::BubblePopError;
use crate::text::{decimal, signed_decimal, owned_text, push_decimal, push_signed_decimal};
use vstd::string::StringExecFns;

verus! {

/// Width of the model input plane in pixels.
pub const INPUT_WIDTH: usize = 768;

/// Height of the model input plane in pixels.
pub const INPUT_HEIGHT: usize = 1024;

/// Element type of a runtime tensor.
#[derive(Debug, Clone, Copy, PartialEq, Eq, Structural)]
pub enum TensorType {
    NoType,
    Float32,
    Int32,
    UInt8,
    Int64,
    Text,
    Bool,
    Int16,
    Complex64,
    Int8,
    Float16,
    Float64,
    Complex128,
    UInt64,
    Resource,
    Variant,
    UInt32,
    UInt16,
    Int4,
}

/// Outcome status reported by the inference runtime.
#[derive(Debug, Clone, Copy, PartialEq, Eq, Structural)]
pub enum RuntimeStatus {
    Success,
    Error,
    DelegateError,
    ApplicationError,
    DelegateDataNotFound,
    DelegateDataWriteError,
    DelegateDataReadError,
    UnresolvedOps,
    Cancelled,
}

/// How the runtime names a tensor element type in its messages.
pub open spec fn tensor_type_name(t: TensorType) -> Seq<char> {
    match t {
        TensorType::NoType => "NoType"@,
        TensorType::Float32 => "Float32"@,
        TensorType::Int32 => "Int32"@,
        TensorType::UInt8 => "UInt8"@,
        TensorType::Int64 => "Int64"@,
        TensorType::Text => "String"@,
        TensorType::Bool => "Bool"@,
        TensorType::Int16 => "Int16"@,
        TensorType::Complex64 => "Complex64"@,
        TensorType::Int8 => "Int8"@,
        TensorType::Float16 => "Float16"@,
        TensorType::Float64 => "Float64"@,
        TensorType::Complex128 => "Complex128"@,
        TensorType::UInt64 => "UInt64"@,
        TensorType::Resource => "Resource"@,
        TensorType::Variant => "Variant"@,
        TensorType::UInt32 => "UInt32"@,
        TensorType::UInt16 => "UInt16"@,
        TensorType::Int4 => "Int4"@,
    }
}

/// How the runtime names a status in its messages.
pub open spec fn runtime_status_name(s: RuntimeStatus) -> Seq<char> {
    match s {
        RuntimeStatus::Success => "Ok"@,
        RuntimeStatus::Error => "Error"@,
        RuntimeStatus::DelegateError => "DelegateError"@,
        RuntimeStatus::ApplicationError => "ApplicationError"@,
        RuntimeStatus::DelegateDataNotFound => "DelegateDataNotFound"@,
        RuntimeStatus::DelegateDataWriteError => "DelegateDataWriteError"@,
        RuntimeStatus::DelegateDataReadError => "DelegateDataReadError"@,
        RuntimeStatus::UnresolvedOps => "UnresolvedOps"@,
        RuntimeStatus::Cancelled => "Cancelled"@,
    }
}

impl TensorType {
    /// The element type's name as the runtime's messages give it.
    pub fn name(&self) -> (n: &'static str)
        ensures
            n@ == tensor_type_name(*self),
    {
        match self {
            TensorType::NoType => "NoType",
            TensorType::Float32 => "Float32",
            TensorType::Int32 => "Int32",
            TensorType::UInt8 => "UInt8",
            TensorType::Int64 => "Int64",
            TensorType::Text => "String",
            TensorType::Bool => "Bool",
            TensorType::Int16 => "Int16",
            TensorType::Complex64 => "Complex64",
            TensorType::Int8 => "Int8",
            TensorType::Float16 => "Float16",
            TensorType::Float64 => "Float64",
            TensorType::Complex128 => "Complex128",
            TensorType::UInt64 => "UInt64",
            TensorType::Resource => "Resource",
            TensorType::Variant => "Variant",
            TensorType::UInt32 => "UInt32",
            TensorType::UInt16 => "UInt16",
            TensorType::Int4 => "Int4",
        }
    }
}

impl RuntimeStatus {
    /// The status's name as the runtime's messages give it.
    pub fn name(&self) -> (n: &'static str)
        ensures
            n@ == runtime_status_name(*self),
    {
        match self {
            RuntimeStatus::Success => "Ok",
            RuntimeStatus::Error => "Error",
            RuntimeStatus::DelegateError => "DelegateError",
            RuntimeStatus::ApplicationError => "ApplicationError",
            RuntimeStatus::DelegateDataNotFound => "DelegateDataNotFound",
            RuntimeStatus::DelegateDataWriteError => "DelegateDataWriteError",
            RuntimeStatus::DelegateDataReadError => "DelegateDataReadError",
            RuntimeStatus::UnresolvedOps => "UnresolvedOps",
            RuntimeStatus::Cancelled => "Cancelled",
        }
    }
}

/// Whether `r` is `Ok(())` exactly when `ok`, and otherwise a model load error with message `m`.
pub open spec fn model_check(r: Result<(), BubblePopError>, ok: bool, m: Seq<char>) -> bool {
    if ok {
        r is Ok
    } else {
        r matches Err(BubblePopError::ModelLoadError(e)) && e@ == m
    }
}

/// Whether `r` is `Ok(())` exactly when `ok`, and otherwise a runtime error with message `m`.
pub open spec fn runtime_check(r: Result<(), BubblePopError>, ok: bool, m: Seq<char>) -> bool {
    if ok {
        r is Ok
    } else {
        r matches Err(BubblePopError::RuntimeError(e)) && e@ == m
    }
}

/// Checks the status of tensor allocation.
pub fn check_allocate_status(status: RuntimeStatus) -> (r: Result<(), BubblePopError>)
    ensures
        runtime_check(
            r,
            status == RuntimeStatus::Success,
            "TfLiteInterpreterAllocateTensors failed with status: "@ + runtime_status_name(status),
        ),
{
    if status != RuntimeStatus::Success {
        let mut message = owned_text("TfLiteInterpreterAllocateTensors failed with status: ");
        message.append(status.name());
        return Err(BubblePopError::RuntimeError(message));
    }
    Ok(())
}

/// Checks the status of one inference run.
pub fn check_invoke_status(status: RuntimeStatus) -> (r: Result<(), BubblePopError>)
    ensures
        runtime_check(
            r,
            status == RuntimeStatus::Success,
            "TfLiteInterpreterInvoke failed with status: "@ + runtime_status_name(status),
        ),
{
    if status != RuntimeStatus::Success {
        let mut message = owned_text("TfLiteInterpreterInvoke failed with status: ");
        message.append(status.name());
        return Err(BubblePopError::RuntimeError(message));
    }
    Ok(())
}

/// Checks that the model has at least one input and one output tensor.
pub fn check_tensor_counts(inputs: i32, outputs: i32) -> (r: Result<(), BubblePopError>)
    ensures
        model_check(
            r,
            inputs >= 1 && outputs >= 1,
            "Expected at least 1 input and 1 output tensor, found inputs: "@ + signed_decimal(
                inputs as int,
            ) + ", outputs: "@ + signed_decimal(outputs as int),
        ),
{
    if inputs < 1 || outputs < 1 {
        let mut message = owned_text(
            "Expected at least 1 input and 1 output tensor, found inputs: ",
        );
        push_signed_decimal(&mut message, inputs as i64);
        message.append(", outputs: ");
        push_signed_decimal(&mut message, outputs as i64);
        return Err(BubblePopError::ModelLoadError(message));
    }
    Ok(())
}

/// Message for a tensor of the wrong element type; `role` is "input" or "output".
pub open spec fn type_message(role: Seq<char>, t: TensorType) -> Seq<char> {
    "Expected Float32 "@ + role + " tensor, got type ID "@ + tensor_type_name(t)
}

/// Message for a tensor of the wrong rank; `role` is "input" or "output".
pub open spec fn rank_message(role: Seq<char>, dims: i32) -> Seq<char> {
    "Expected 4-dimensional "@ + role + " tensor [1, H, W, C], got "@ + signed_decimal(dims as int)
        + " dimensions"@
}

fn check_float32(t: TensorType, role: &str) -> (r: Result<(), BubblePopError>)
    ensures
        model_check(r, t == TensorType::Float32, type_message(role@, t)),
{
    if t != TensorType::Float32 {
        let mut message = owned_text("Expected Float32 ");
        message.append(role);
        message.append(" tensor, got type ID ");
        message.append(t.name());
        return Err(BubblePopError::ModelLoadError(message));
    }
    Ok(())
}

fn check_rank(dims: i32, role: &str) -> (r: Result<(), BubblePopError>)
    ensures
        model_check(r, dims == 4, rank_message(role@, dims)),
{
    if dims != 4 {
        let mut message = owned_text("Expected 4-dimensional ");
        message.append(role);
        message.append(" tensor [1, H, W, C], got ");
        push_signed_decimal(&mut message, dims as i64);
        message.append(" dimensions");
        return Err(BubblePopError::ModelLoadError(message));
    }
    Ok(())
}

/// Checks that the model input holds 32-bit floats.
pub fn check_input_type(t: TensorType) -> (r: Result<(), BubblePopError>)
    ensures
        model_check(r, t == TensorType::Float32, type_message("input"@, t)),
{
    check_float32(t, "input")
}

/// Checks that the model output holds 32-bit floats.
pub fn check_output_type(t: TensorType) -> (r: Result<(), BubblePopError>)
    ensures
        model_check(r, t == TensorType::Float32, type_message("output"@, t)),
{
    check_float32(t, "output")
}

/// Checks that the model input is four-dimensional.
pub fn check_input_rank(dims: i32) -> (r: Result<(), BubblePopError>)
    ensures
        model_check(r, dims == 4, rank_message("input"@, dims)),
{
    check_rank(dims, "input")
}

/// Checks that the model output is four-dimensional.
pub fn check_output_rank(dims: i32) -> (r: Result<(), BubblePopError>)
    ensures
        model_check(r, dims == 4, rank_message("output"@, dims)),
{
    check_rank(dims, "output")
}

/// The rendering `[a, b, c, d]` of four tensor dimensions.
pub open spec fn dims_text(a: i32, b: i32, c: i32, d: i32) -> Seq<char> {
    "["@ + signed_decimal(a as int) + ", "@ + signed_decimal(b as int) + ", "@ + signed_decimal(
        c as int,
    ) + ", "@ + signed_decimal(d as int) + "]"@
}

fn push_dims(s: &mut String, a: i32, b: i32, c: i32, d: i32)
    ensures
        final(s)@ == old(s)@ + dims_text(a, b, c, d),
{
    s.append("[");
    push_signed_decimal(s, a as i64);
    s.append(", ");
    push_signed_decimal(s, b as i64);
    s.append(", ");
    push_signed_decimal(s, c as i64);
    s.append(", ");
    push_signed_decimal(s, d as i64);
    s.append("]");
}

/// Checks that the model input is one grayscale plane of the detector's input size.
pub fn check_input_shape(batch: i32, height: i32, width: i32, channels: i32) -> (r: Result<
    (),
    BubblePopError,
>)
    ensures
        model_check(
            r,
            batch == 1 && height == INPUT_HEIGHT && width == INPUT_WIDTH && channels == 1,
            "Expected input tensor dimensions [1, "@ + decimal(INPUT_HEIGHT as nat) + ", "@
                + decimal(INPUT_WIDTH as nat) + ", 1], got "@ + dims_text(batch, height, width, channels),
        ),
{
    if batch != 1 || height != INPUT_HEIGHT as i32 || width != INPUT_WIDTH as i32 || channels != 1 {
        let mut message = owned_text("Expected input tensor dimensions [1, ");
        push_decimal(&mut message, INPUT_HEIGHT as u64);
        message.append(", ");
        push_decimal(&mut message, INPUT_WIDTH as u64);
        message.append(", 1], got ");
        push_dims(&mut message, batch, height, width, channels);
        return Err(BubblePopError::ModelLoadError(message));
    }
    Ok(())
}

/// Checks the byte size of the model input: one 32-bit float per input pixel.
pub fn check_input_bytes(bytes: usize) -> (r: Result<(), BubblePopError>)
    ensures
        model_check(
            r,
            bytes == INPUT_HEIGHT * INPUT_WIDTH * 4,
            "Input tensor byte size mismatch: expected "@ + decimal(
                (INPUT_HEIGHT * INPUT_WIDTH * 4) as nat,
            ) + " bytes, got "@ + decimal(bytes as nat),
        ),
{
    let expected = INPUT_HEIGHT * INPUT_WIDTH * 4;
    if bytes != expected {
        let mut message = owned_text("Input tensor byte size mismatch: expected ");
        push_decimal(&mut message, expected as u64);
        message.append(" bytes, got ");
        push_decimal(&mut message, bytes as u64);
        return Err(BubblePopError::ModelLoadError(message));
    }
    Ok(())
}

/// Checks that every output dimension is positive and returns the output plane's height,
/// width and channel count.
pub fn check_output_shape(batch: i32, height: i32, width: i32, channels: i32) -> (r: Result<
    (usize, usize, usize),
    BubblePopError,
>)
    ensures
        r is Ok <==> (batch > 0 && height > 0 && width > 0 && channels > 0),
        r matches Ok((h, w, c)) ==> h == height && w == width && c == channels,
        r matches Err(e) ==> e matches BubblePopError::ModelLoadError(m) && m@
            == "Invalid output tensor dimensions: "@ + dims_text(batch, height, width, channels),
{
    if batch <= 0 || height <= 0 || width <= 0 || channels <= 0 {
        let mut message = owned_text("Invalid output tensor dimensions: ");
        push_dims(&mut message, batch, height, width, channels);
        return Err(BubblePopError::ModelLoadError(message));
    }
    Ok((height as usize, width as usize, channels as usize))
}

/// Checks the byte size of the model output: one 32-bit float per value.
pub fn check_output_bytes(height: usize, width: usize, channels: usize, bytes: usize) -> (r: Result<
    (),
    BubblePopError,
>)
    requires
        height * width <= usize::MAX,
        height * width * channels <= usize::MAX,
        height * width * channels * 4 <= usize::MAX,
    ensures
        model_check(
            r,
            bytes == height * width * channels * 4,
            "Output tensor byte size mismatch: expected "@ + decimal(
                (height * width * channels * 4) as nat,
            ) + " bytes, got "@ + decimal(bytes as nat),
        ),
{
    let expected = height * width * channels * 4;
    if bytes != expected {
        let mut message = owned_text("Output tensor byte size mismatch: expected ");
        push_decimal(&mut message, expected as u64);
        message.append(" bytes, got ");
        push_decimal(&mut message, bytes as u64);
        return Err(BubblePopError::ModelLoadError(message));
    }
    Ok(())
}

/// Checks that an inference input holds exactly one value per input pixel.
pub fn check_input_len(len: usize) -> (r: Result<(), BubblePopError>)
    ensures
        r is Ok <==> len == INPUT_HEIGHT * INPUT_WIDTH,
        r matches Err(e) ==> e matches BubblePopError::InvalidInput(m) && m@
            == "Expected input tensor of size "@ + decimal((INPUT_HEIGHT * INPUT_WIDTH) as nat)
            + ", got "@ + decimal(len as nat),
{
    if len != INPUT_HEIGHT * INPUT_WIDTH {
        let mut message = owned_text("Expected input tensor of size ");
        push_decimal(&mut message, (INPUT_HEIGHT * INPUT_WIDTH) as u64);
        message.append(", got ");
        push_decimal(&mut message, len as u64);
        return Err(BubblePopError::InvalidInput(message));
    }
    Ok(())
}

} // verus!
