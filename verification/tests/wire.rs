use matting::wire::{check_groups, GROUPS};
use onnx_protobuf::{
    AttributeProto, FunctionProto, GraphProto, ModelProto, NodeProto, SparseTensorProto,
    TensorAnnotation, TensorProto, TrainingInfoProto, TypeProto, ValueInfoProto,
};
use protobuf::{Message, MessageField};

const MOST: usize = GROUPS as usize;

fn groups(n: usize) -> Vec<u8> {
    [vec![0x0b; n], vec![0x0c; n]].concat()
}

/// A field of a number that holds some bytes.
fn field(number: u8, body: &[u8]) -> Vec<u8> {
    let mut out = Vec::new();
    let mut tag = (number as u32) << 3 | 2;
    while tag >= 128 {
        out.push(tag as u8 | 128);
        tag >>= 7;
    }
    out.push(tag as u8);
    let mut len = body.len();
    while len >= 128 {
        out.push(len as u8 | 128);
        len >>= 7;
    }
    out.push(len as u8);
    out.extend_from_slice(body);
    out
}

/// Wraps some bytes into fields, the innermost one first.
fn nested(path: &[u8], body: &[u8]) -> Vec<u8> {
    path.iter().fold(body.to_vec(), |inner, &number| field(number, &inner))
}

/// The deepest nesting that a model can have in its fields of other types.
const PATHS: [&[u8]; 24] = [
    &[7],
    &[8],
    &[14],
    &[20],
    &[25],
    &[1, 20],
    &[3, 20],
    &[1, 7],
    &[5, 7],
    &[11, 7],
    &[14, 7],
    &[15, 7],
    &[2, 14, 7],
    &[3, 5, 7],
    &[13, 5, 7],
    &[5, 1, 7],
    &[5, 5, 1, 7],
    &[6, 5, 1, 7],
    &[2, 12, 7],
    &[2, 1, 2, 12, 7],
    &[1, 2, 1, 2, 12, 7],
    &[1, 4, 2, 13, 7],
    &[2, 5, 2, 13, 7],
    &[7, 25],
];

#[test]
fn groups_are_found_in_every_message() {
    for path in PATHS {
        assert!(check_groups(&nested(path, &groups(MOST))), "{path:?}");
        assert!(!check_groups(&nested(path, &groups(MOST + 1))), "{path:?}");
        // They are groups to the parser, too: it skips them.
        let model = ModelProto::parse_from_bytes(&nested(path, &groups(MOST))).unwrap();
        assert_eq!(model, ModelProto::parse_from_bytes(&nested(path, &[])).unwrap());
    }
}

#[test]
fn data_is_not_taken_for_groups() {
    // Bytes in a tensor, text, and unknown fields hold no messages.
    for path in [&[9u8, 5, 7][..], &[2], &[8, 5, 7], &[31], &[31, 7]] {
        assert!(check_groups(&nested(path, &[0x0b; 2 * MOST])), "{path:?}");
    }
    // Nor does what lies inside a group.
    let mut bytes = vec![0x0b];
    bytes.extend(field(7, &[0x0b; 2 * MOST]));
    bytes.push(0x0c);
    assert!(check_groups(&bytes));
}

#[test]
fn groups_end() {
    let many: Vec<u8> = (0..2 * MOST).flat_map(|_| [0x0b, 0x08, 0x01, 0x0c]).collect();
    assert!(check_groups(&many));
    let mut bytes = vec![0x0b; MOST];
    bytes.push(0x0c);
    bytes.push(0x0b);
    assert!(check_groups(&bytes));
    bytes.push(0x0b);
    assert!(!check_groups(&bytes));
}

#[test]
fn what_cannot_be_parsed_ends_the_search() {
    let deep = vec![0x0b; MOST + 1];
    assert!(!check_groups(&deep));
    for start in [&[0x0c][..], &[0x0e], &[0x0f], &[0x08], &[0xff; 10]] {
        let bytes = [start, &[0x80; 11], &deep[..]].concat();
        assert!(check_groups(&bytes), "{start:?}");
    }
    assert!(!check_groups(&[&[0x08, 0x80, 0x01][..], &deep[..]].concat()));
    assert!(!check_groups(&[&[0x0d, 0, 0, 0, 0][..], &deep[..]].concat()));
    assert!(!check_groups(&[&[0x09, 0, 0, 0, 0, 0, 0, 0, 0][..], &deep[..]].concat()));
    // A length that goes beyond the end takes what there is.
    let cut = &nested(&[7], &deep)[..];
    assert!(!check_groups(&cut[..cut.len()]));
    assert!(!check_groups(&[&[0x3a, 0xff, 0x7f][..], &deep[..]].concat()));
    assert!(check_groups(&[]));
}

#[test]
fn models_hold_no_groups() {
    let mut tensor = TensorProto::new();
    tensor.raw_data = vec![0x0b; 2 * MOST];
    let mut kind = TypeProto::new();
    kind.mut_tensor_type().elem_type = 11;
    let mut port = ValueInfoProto::new();
    port.type_ = MessageField::some(kind);
    let mut sparse = SparseTensorProto::new();
    sparse.values = MessageField::some(tensor.clone());
    let mut attribute = AttributeProto::new();
    attribute.t = MessageField::some(tensor.clone());
    attribute.s = vec![0x0b; 2 * MOST];
    let mut node = NodeProto::new();
    node.attribute.push(attribute);
    let mut graph = GraphProto::new();
    graph.node.push(node.clone());
    graph.initializer.push(tensor);
    graph.sparse_initializer.push(sparse);
    graph.input.push(port);
    graph.quantization_annotation.push(TensorAnnotation::new());
    let mut training = TrainingInfoProto::new();
    training.algorithm = MessageField::some(graph.clone());
    let mut function = FunctionProto::new();
    function.node.push(node);
    let mut model = ModelProto::new();
    model.graph = MessageField::some(graph);
    model.training_info.push(training);
    model.functions.push(function);
    assert!(check_groups(&model.write_to_bytes().unwrap()));
}
