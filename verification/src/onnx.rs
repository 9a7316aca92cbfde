//! The part of an ONNX model that freezing reads and changes.
//!
//! The model itself stays in the hands of `onnx-protobuf`. What is in it is
//! named here, and the few ways in which it is read and changed are stated over
//! those names. Where an encoding stands for a part of a model, unknown fields
//! are in it in the order of their numbers.

use crate::wire;
use vstd::prelude::*;

verus! {

/// A dimension of a tensor.
pub enum Dim {
    Open,
    Symbol { name: Seq<char> },
    Fixed { value: i64 },
}

/// An input or output that a graph declares.
pub struct Port {
    pub name: Seq<char>,
    /// Whether a type is declared at all.
    pub typed: bool,
    /// The dimensions of the tensor, none where it is no tensor.
    pub dims: Seq<Dim>,
    /// Everything else: the encoding of the port once its name is cleared, and
    /// the value or symbol of each of these dimensions.
    pub rest: Seq<u8>,
}

/// A constant of the graph. `floats` are binary32 patterns.
pub struct Constant {
    pub name: Seq<char>,
    pub data_type: int,
    pub dims: Seq<i64>,
    pub floats: Seq<u32>,
    /// Everything else: the encoding of the tensor once these four fields are
    /// cleared.
    pub rest: Seq<u8>,
}

/// What a graph declares.
pub struct Graph {
    pub inputs: Seq<Port>,
    pub outputs: Seq<Port>,
    pub constants: Seq<Constant>,
}

/// What freezing needs to know of an input or output. A dimension is read as
/// whether it has a fixed value, and that value, or 0.
#[derive(Debug)]
pub struct PortInfo {
    pub name: String,
    pub typed: bool,
    pub dims: Vec<(bool, i64)>,
}

/// The value of a dimension, if it has one.
pub open spec fn fixed_value(dim: Dim) -> Option<i64> {
    match dim {
        Dim::Fixed { value } => Some(value),
        _ => None,
    }
}

/// A dimension as it is read.
pub open spec fn as_read(dim: Dim) -> (bool, i64) {
    match fixed_value(dim) {
        Some(value) => (true, value),
        None => (false, 0),
    }
}

impl PortInfo {
    /// Whether this is what is read of a port.
    pub open spec fn describes(&self, port: Port) -> bool {
        &&& self.name@ == port.name
        &&& self.typed == port.typed
        &&& self.dims@ == Seq::new(port.dims.len(), |i: int| as_read(port.dims[i]))
    }
}

/// Whether these are what is read of some ports.
pub open spec fn describe(infos: Seq<PortInfo>, ports: Seq<Port>) -> bool {
    &&& infos.len() == ports.len()
    &&& forall|i: int| 0 <= i < ports.len() ==> (#[trigger] infos[i]).describes(ports[i])
}

#[verifier::external_type_specification]
#[verifier::external_body]
pub struct ExModelProto(onnx_protobuf::ModelProto);

#[verifier::external_type_specification]
#[verifier::external_body]
pub struct ExProtobufError(protobuf::Error);

/// What the graph of a model declares, if the model has a graph.
pub uninterp spec fn graph_of(model: onnx_protobuf::ModelProto) -> Option<Graph>;

/// Everything else in a model: its encoding once the inputs and the
/// initializers are taken out of its graph.
pub uninterp spec fn rest_of(model: onnx_protobuf::ModelProto) -> Seq<u8>;

/// Whether a model is such as the parser hands out: messages do not nest deeper
/// than it goes, and no unknown field has the number and the wire type of a
/// known one.
pub uninterp spec fn is_readable(model: onnx_protobuf::ModelProto) -> bool;

/// What the graph declares in the model that some bytes encode, and everything
/// else in that model, if they encode one.
pub uninterp spec fn decoded(bytes: Seq<u8>) -> Option<(Option<Graph>, Seq<u8>)>;

/// How many bytes the encoding of a readable model has in which these are.
pub uninterp spec fn encoded_size(graph: Option<Graph>, rest: Seq<u8>) -> nat;

/// Whether a model of some size can be encoded: lengths are written in 32 bits,
/// and the bytes have to fit into memory.
pub open spec fn is_encodable(size: nat) -> bool {
    size <= u32::MAX && size <= isize::MAX
}

/// `ModelProto::parse_from_bytes`. Whether bytes encode a model, and what is in
/// that model, is a function of the bytes, named `decoded`. Groups that nest
/// too deep overflow the stack.
#[verifier::external_body]
pub(crate) fn parse_model(bytes: &[u8]) -> (model: Result<
    onnx_protobuf::ModelProto,
    protobuf::Error,
>)
    requires
        wire::is_shallow(bytes@),
    ensures
        match model {
            Ok(m) => decoded(bytes@) == Some((graph_of(m), rest_of(m))) && is_readable(m),
            Err(_) => decoded(bytes@) is None,
        },
{
    protobuf::Message::parse_from_bytes(bytes)
}

/// `Message::compute_size`. The size is a function of what is in the model,
/// named `encoded_size`.
#[verifier::external_body]
pub(crate) fn measure_model(model: &onnx_protobuf::ModelProto) -> (size: u64)
    requires
        is_readable(*model),
    ensures
        size == encoded_size(graph_of(*model), rest_of(*model)),
{
    protobuf::Message::compute_size(model)
}

/// `Message::write_to_bytes`. Nothing is required of the fields of a model, so
/// it is written. The bytes hold no groups, and parsed again they give back
/// what is in the model.
#[verifier::external_body]
pub(crate) fn encode_model(model: &onnx_protobuf::ModelProto) -> (bytes: Result<
    Vec<u8>,
    protobuf::Error,
>)
    requires
        is_readable(*model),
        is_encodable(encoded_size(graph_of(*model), rest_of(*model))),
    ensures
        bytes is Ok,
        wire::is_shallow(bytes->Ok_0@),
        decoded(bytes->Ok_0@) == Some((graph_of(*model), rest_of(*model))),
{
    protobuf::Message::write_to_bytes(model)
}

/// `MessageField::is_some` on the graph.
#[verifier::external_body]
pub(crate) fn has_graph(model: &onnx_protobuf::ModelProto) -> (yes: bool)
    ensures
        yes == (graph_of(*model) is Some),
{
    model.graph.is_some()
}

/// The inputs that the graph declares, in order: for each its name, whether it
/// has a type, and the dimensions that `tensor_type` gives, each read by
/// `has_dim_value` and `dim_value`.
#[verifier::external_body]
pub(crate) fn inputs(model: &onnx_protobuf::ModelProto) -> (ports: Vec<PortInfo>)
    requires
        graph_of(*model) is Some,
    ensures
        describe(ports@, graph_of(*model)->0.inputs),
{
    model.graph.input.iter().map(|p| PortInfo {
        name: p.name.clone(),
        typed: p.type_.is_some(),
        dims: p.type_.tensor_type().shape.dim.iter()
            .map(|d| (d.has_dim_value(), d.dim_value())).collect(),
    }).collect()
}

/// The outputs that the graph declares, in order, read as `inputs` are.
#[verifier::external_body]
pub(crate) fn outputs(model: &onnx_protobuf::ModelProto) -> (ports: Vec<PortInfo>)
    requires
        graph_of(*model) is Some,
    ensures
        describe(ports@, graph_of(*model)->0.outputs),
{
    model.graph.output.iter().map(|p| PortInfo {
        name: p.name.clone(),
        typed: p.type_.is_some(),
        dims: p.type_.tensor_type().shape.dim.iter()
            .map(|d| (d.has_dim_value(), d.dim_value())).collect(),
    }).collect()
}

/// `Vec::remove` on the inputs of the graph: input `i` goes, the others stay in
/// order, and nothing else changes.
#[verifier::external_body]
pub(crate) fn remove_input(model: &mut onnx_protobuf::ModelProto, i: usize)
    requires
        graph_of(*old(model)) is Some,
        i < graph_of(*old(model))->0.inputs.len(),
    ensures
        is_readable(*old(model)) ==> is_readable(*final(model)),
        rest_of(*final(model)) == rest_of(*old(model)),
        graph_of(*final(model)) == Some(
            (Graph {
                inputs: graph_of(*old(model))->0.inputs.remove(i as int),
                ..graph_of(*old(model))->0
            }),
        ),
{
    model.graph.mut_or_insert_default().input.remove(i);
}

/// `Vec::push` on the initializers of the graph: one more constant, made by
/// `TensorProto::new` with the four given fields set, and nothing else changes.
/// A fresh tensor has no other field to encode.
#[verifier::external_body]
pub(crate) fn push_constant(
    model: &mut onnx_protobuf::ModelProto,
    name: &str,
    data_type: i32,
    dims: Vec<i64>,
    float: u32,
)
    requires
        graph_of(*old(model)) is Some,
    ensures
        is_readable(*old(model)) ==> is_readable(*final(model)),
        rest_of(*final(model)) == rest_of(*old(model)),
        graph_of(*final(model)) == Some(
            (Graph {
                constants: graph_of(*old(model))->0.constants.push(
                    (Constant {
                        name: name@,
                        data_type: data_type as int,
                        dims: dims@,
                        floats: seq![float],
                        rest: seq![],
                    }),
                ),
                ..graph_of(*old(model))->0
            }),
        ),
{
    let mut constant = onnx_protobuf::TensorProto::new();
    constant.name = name.to_string();
    constant.data_type = data_type;
    constant.dims = dims;
    let bytes = float.to_le_bytes();
    let value = protobuf::CodedInputStream::from_bytes(&bytes).read_float().unwrap();
    constant.float_data = vec![value];
    model.graph.mut_or_insert_default().initializer.push(constant);
}

/// `Dimension::set_dim_value` on dimension `j` of input `i`, which has to be
/// there: it gets a fixed value in place of its value or symbol, and nothing
/// else changes.
#[verifier::external_body]
pub(crate) fn pin_dimension(model: &mut onnx_protobuf::ModelProto, i: usize, j: usize, value: i64)
    requires
        graph_of(*old(model)) is Some,
        i < graph_of(*old(model))->0.inputs.len(),
        graph_of(*old(model))->0.inputs[i as int].typed,
        j < graph_of(*old(model))->0.inputs[i as int].dims.len(),
    ensures
        is_readable(*old(model)) ==> is_readable(*final(model)),
        rest_of(*final(model)) == rest_of(*old(model)),
        graph_of(*final(model)) == Some(
            (Graph {
                inputs: graph_of(*old(model))->0.inputs.update(
                    i as int,
                    (Port {
                        dims: graph_of(*old(model))->0.inputs[i as int].dims.update(
                            j as int,
                            (Dim::Fixed { value }),
                        ),
                        ..graph_of(*old(model))->0.inputs[i as int]
                    }),
                ),
                ..graph_of(*old(model))->0
            }),
        ),
{
    let input = &mut model.graph.mut_or_insert_default().input[i];
    let tensor = input.type_.mut_or_insert_default().mut_tensor_type();
    let dimension = &mut tensor.shape.mut_or_insert_default().dim[j];
    dimension.clear_dim_param();
    dimension.set_dim_value(value);
}

} // verus!
