use matting::cli::Backbone;
use matting::freeze::{
    div_ceil, freeze_model, read_state_channels, state_shapes, FreezeError,
};
use matting::prepare::{check_model, prepare_model, PrepareError};
use matting::single::Single;
use onnx_protobuf::tensor_shape_proto::Dimension;
use onnx_protobuf::{
    GraphProto, ModelProto, NodeProto, StringStringEntryProto, TensorProto, TypeProto,
    ValueInfoProto,
};
use protobuf::{Message, MessageField};

fn single(value: f32) -> Single {
    Single::from_bits(value.to_bits())
}

fn fixed(value: i64) -> Dimension {
    let mut d = Dimension::new();
    d.set_dim_value(value);
    d
}

fn open(name: &str) -> Dimension {
    let mut d = Dimension::new();
    d.set_dim_param(name.to_string());
    d
}

fn port(name: &str, dims: Vec<Dimension>) -> ValueInfoProto {
    let mut kind = TypeProto::new();
    let tensor = kind.mut_tensor_type();
    tensor.elem_type = 1;
    tensor.shape.mut_or_insert_default().dim = dims;
    let mut port = ValueInfoProto::new();
    port.name = name.to_string();
    port.type_ = MessageField::some(kind);
    port
}

fn open_dims(rank: usize) -> Vec<Dimension> {
    (0..rank).map(|i| open(&format!("d{i}"))).collect()
}

/// A graph that declares what a stock export does.
fn stock(widths: [i64; 4]) -> ModelProto {
    let mut graph = GraphProto::new();
    graph.name = "rvm".to_string();
    graph.node.push(NodeProto::new());
    graph.initializer.push(TensorProto::new());
    graph.input.push(port("src", open_dims(4)));
    for level in 1..=4 {
        graph.input.push(port(&format!("r{level}i"), open_dims(4)));
    }
    graph.input.push(port("downsample_ratio", open_dims(1)));
    graph.output.push(port("fgr", open_dims(4)));
    graph.output.push(port("pha", open_dims(4)));
    for level in 1..=4 {
        let mut dims = open_dims(4);
        dims[1] = fixed(widths[level - 1]);
        graph.output.push(port(&format!("r{level}o"), dims));
    }
    let mut model = ModelProto::new();
    model.producer_name = "export".to_string();
    model.graph = MessageField::some(graph);
    model
}

const MNV3: [i64; 4] = [16, 20, 40, 64];
const R50: [i64; 4] = [16, 32, 64, 128];

fn dims_of(port: &ValueInfoProto) -> Vec<i64> {
    let dims = &port.type_.as_ref().unwrap().tensor_type().shape.dim;
    assert!(dims.iter().all(|d| d.has_dim_value()), "{} is open", port.name);
    dims.iter().map(|d| d.dim_value()).collect()
}

#[test]
fn reads_mobilenetv3_channels_from_model() {
    let m = stock(MNV3);
    assert_eq!(read_state_channels(&m).unwrap(), [16, 20, 40, 64]);
}

#[test]
fn reads_resnet50_channels_from_model() {
    let m = stock(R50);
    assert_eq!(read_state_channels(&m).unwrap(), [16, 32, 64, 128]);
}

#[test]
fn computes_state_spatial_dims() {
    let m = stock(MNV3);
    let s = state_shapes(&m, 1024, 576, single(0.5)).unwrap();
    // Downsampled is 512x288; states sit at /2, /4, /8, /16 of that.
    assert_eq!(s.spatial, [(144, 256), (72, 128), (36, 64), (18, 32)]);
}

#[test]
fn frozen_model_has_no_downsample_ratio_input() {
    let f = freeze_model(stock(MNV3), 1024, 576, single(0.5)).unwrap();
    let g = f.graph.as_ref().unwrap();
    assert!(
        !g.input.iter().any(|i| i.name == "downsample_ratio"),
        "downsample_ratio must not remain a graph input"
    );
    assert!(
        g.initializer.iter().any(|i| i.name == "downsample_ratio"),
        "downsample_ratio must become an initializer"
    );
}

#[test]
fn frozen_model_pins_all_input_dims() {
    let f = freeze_model(stock(MNV3), 1024, 576, single(0.5)).unwrap();
    let g = f.graph.as_ref().unwrap();
    for input in &g.input {
        let dims = &input.type_.as_ref().unwrap().tensor_type().shape.dim;
        for d in dims {
            assert!(
                d.has_dim_value() && d.dim_value() > 0,
                "input {} has an unpinned dim",
                input.name
            );
        }
    }
    let src = g.input.iter().find(|i| i.name == "src").unwrap();
    let dims: Vec<i64> = src
        .type_
        .as_ref()
        .unwrap()
        .tensor_type()
        .shape
        .dim
        .iter()
        .map(|d| d.dim_value())
        .collect();
    assert_eq!(dims, vec![1, 3, 576, 1024]);
}

#[test]
fn freezing_changes_nothing_else() {
    let mut source = stock(R50);
    let graph = source.graph.as_mut().unwrap();
    graph.input.push(port("mask", open_dims(2)));
    // Every copy of the ratio goes, wherever it stands.
    graph.input.insert(0, port("downsample_ratio", open_dims(1)));
    let frozen = freeze_model(source.clone(), 640, 360, single(0.25)).unwrap();

    let g = frozen.graph.as_ref().unwrap();
    let names: Vec<&str> = g.input.iter().map(|i| i.name.as_str()).collect();
    assert_eq!(names, ["src", "r1i", "r2i", "r3i", "r4i", "mask"]);
    assert_eq!(dims_of(&g.input[1]), [1, 16, 45, 80]);
    assert_eq!(dims_of(&g.input[2]), [1, 32, 23, 40]);
    assert_eq!(dims_of(&g.input[3]), [1, 64, 12, 20]);
    assert_eq!(dims_of(&g.input[4]), [1, 128, 6, 10]);
    assert_eq!(g.input[0].type_.as_ref().unwrap().tensor_type().elem_type, 1);

    let ratio = g.initializer.last().unwrap();
    assert_eq!(g.initializer.len(), 2);
    assert_eq!(ratio.name, "downsample_ratio");
    assert_eq!(ratio.data_type, onnx_protobuf::tensor_proto::DataType::FLOAT as i32);
    assert_eq!(ratio.dims, [1]);
    assert_eq!(ratio.float_data, [0.25]);

    // Put back what was changed: the rest is as it was.
    let mut restored = frozen.clone();
    let graph = restored.graph.as_mut().unwrap();
    graph.input = source.graph.as_ref().unwrap().input.clone();
    graph.initializer.pop();
    assert_eq!(restored, source);
}

#[test]
fn freezing_twice_is_refused() {
    let once = freeze_model(stock(MNV3), 1024, 576, single(0.5)).unwrap();
    let again = freeze_model(once, 640, 360, single(0.25));
    assert_eq!(again.unwrap_err(), FreezeError::NoRatioInput);
}

#[test]
fn state_sides_round_up() {
    let m = stock(MNV3);
    let spatial = |w, h, ratio| state_shapes(&m, w, h, single(ratio)).unwrap().spatial;
    assert_eq!(spatial(1023, 577, 0.5), [(144, 256), (72, 128), (36, 64), (18, 32)]);
    assert_eq!(spatial(33, 17, 1.0), [(9, 17), (5, 9), (3, 5), (2, 3)]);
    assert_eq!(spatial(1024, 576, 0.0), [(0, 0); 4]);
    assert_eq!(spatial(5, 6, -1.0), [(-2, -2), (0, 0), (0, 0), (0, 0)]);
    assert_eq!(spatial(5, 6, f32::NAN), [(0, 0); 4]);
}

#[test]
fn division_rounds_up() {
    for a in 0..200i64 {
        for b in 1..40i64 {
            let n = div_ceil(a, b);
            assert!((n - 1) * b < a && a <= n * b, "{a} {b} {n}");
        }
    }
    assert_eq!(div_ceil(0, i64::MAX), 0);
    assert_eq!(div_ceil(1, i64::MAX), 1);
    assert_eq!(div_ceil(i64::MAX, 1), i64::MAX);
    assert_eq!(div_ceil(i64::MAX, 2), 1 << 62);
    assert_eq!(div_ceil(i64::MAX, i64::MAX), 1);
    assert_eq!(div_ceil(-4, 4), 0);
    assert_eq!(div_ceil(i64::MIN, 1), i64::MIN);
}

#[test]
fn any_ratio_can_be_measured() {
    let m = stock(MNV3);
    let spatial = |ratio| state_shapes(&m, 1024, 576, single(ratio)).unwrap().spatial;
    assert_eq!(spatial(f32::INFINITY)[0], (1 << 62, 1 << 62));
    assert_eq!(spatial(1.0e30)[3], (1 << 59, 1 << 59));
    // What is wrong with the model is found whatever the ratio.
    let error = state_shapes(&ModelProto::new(), 1024, 576, single(f32::INFINITY));
    assert_eq!(error.unwrap_err(), FreezeError::NoGraph);
    let bytes = stock(R50).write_to_bytes().unwrap();
    let error = prepare_model(&bytes, Backbone::Mobilenetv3, 1024, 576, single(1.0e30));
    assert!(matches!(error, Err(PrepareError::Channels { declared: R50, .. })));
}

#[test]
fn each_level_is_half_the_one_before() {
    let m = stock(MNV3);
    let s = state_shapes(&m, 1000, 100, single(0.5)).unwrap();
    assert_eq!(s.spatial, [(25, 250), (13, 125), (7, 63), (4, 32)]);
}

/// A tensor that uses all the ways to hold data.
fn weights(name: &str) -> TensorProto {
    let mut t = TensorProto::new();
    t.name = name.to_string();
    t.data_type = 10;
    t.dims = vec![2, 3];
    t.float_data = vec![0.5, -0.0, f32::NAN];
    t.int32_data = vec![1, -2];
    t.int64_data = vec![-3];
    t.double_data = vec![4.25];
    t.uint64_data = vec![5];
    t.string_data = vec![b"six".to_vec()];
    t.raw_data = vec![7; 64];
    t.doc_string = "weights".to_string();
    let mut entry = StringStringEntryProto::new();
    entry.key = "location".to_string();
    entry.value = "weights.bin".to_string();
    t.external_data.push(entry);
    t
}

#[test]
fn freezing_keeps_the_weights_and_the_types() {
    let mut source = stock(MNV3);
    let graph = source.graph.as_mut().unwrap();
    graph.initializer = vec![weights("a"), weights("b")];
    for input in graph.input.iter_mut() {
        input.doc_string = format!("about {}", input.name);
        let kind = input.type_.as_mut().unwrap();
        kind.denotation = "IMAGE".to_string();
        let tensor = kind.mut_tensor_type();
        tensor.elem_type = 10;
        tensor.shape.as_mut().unwrap().dim[0].denotation = "DATA_BATCH".to_string();
    }
    graph.input.push(port("mask", open_dims(2)));
    let bytes = source.write_to_bytes().unwrap();
    let out = prepare_model(&bytes, Backbone::Mobilenetv3, 640, 360, single(0.25)).unwrap();
    let frozen = ModelProto::parse_from_bytes(&out).unwrap();
    let g = frozen.graph.as_ref().unwrap();
    assert_eq!(g.initializer.len(), 3);
    for (kept, name) in g.initializer.iter().zip(["a", "b"]) {
        assert_eq!(kept.write_to_bytes().unwrap(), weights(name).write_to_bytes().unwrap());
    }
    let mut constant = TensorProto::new();
    constant.name = "downsample_ratio".to_string();
    constant.data_type = 1;
    constant.dims = vec![1];
    constant.float_data = vec![0.25];
    assert_eq!(g.initializer[2], constant);

    // But for the dimensions, the inputs are as they were.
    let mut want = source.graph.as_ref().unwrap().input.clone();
    want.retain(|i| i.name != "downsample_ratio");
    assert_eq!(want.last(), g.input.last());
    for (input, want) in g.input.iter().zip(want.iter_mut()).take(5) {
        let dims = dims_of(input);
        let tensor = want.type_.as_mut().unwrap().mut_tensor_type();
        for (d, value) in tensor.shape.as_mut().unwrap().dim.iter_mut().zip(dims) {
            d.set_dim_value(value);
        }
        assert_eq!(input, want);
    }
}

fn fault(change: impl Fn(&mut GraphProto)) -> FreezeError {
    let mut model = stock(MNV3);
    change(model.graph.as_mut().unwrap());
    freeze_model(model, 1024, 576, single(0.5)).unwrap_err()
}

fn output<'a>(g: &'a mut GraphProto, name: &str) -> &'a mut ValueInfoProto {
    g.output.iter_mut().find(|o| o.name == name).unwrap()
}

fn input<'a>(g: &'a mut GraphProto, name: &str) -> &'a mut ValueInfoProto {
    g.input.iter_mut().find(|o| o.name == name).unwrap()
}

#[test]
fn faults_are_named() {
    let check = |error: FreezeError, want: FreezeError, message: &str| {
        assert_eq!(error, want);
        assert_eq!(error.message(), message);
    };
    let bare = read_state_channels(&ModelProto::new()).unwrap_err();
    check(bare, FreezeError::NoGraph, "model has no graph");
    check(
        fault(|g| output(g, "r2o").name = "other".to_string()),
        FreezeError::NoOutput { level: 2 },
        "model has no output r2o; is this an RVM export?",
    );
    check(
        fault(|g| output(g, "r3o").type_ = MessageField::none()),
        FreezeError::UntypedOutput,
        "output has no type",
    );
    check(
        fault(|g| *output(g, "r1o") = port("r1o", open_dims(3))),
        FreezeError::OutputRank { level: 1, rank: 3 },
        "r1o should be rank 4, got 3",
    );
    check(
        fault(|g| *output(g, "r4o") = port("r4o", open_dims(4))),
        FreezeError::NoChannels { level: 4 },
        "r4o has no static channel dim",
    );
    check(
        fault(|g| {
            *output(g, "r4o") = port("r4o", vec![fixed(1), fixed(0), fixed(1), fixed(1)])
        }),
        FreezeError::NoChannels { level: 4 },
        "r4o has no static channel dim",
    );
    check(
        fault(|g| input(g, "downsample_ratio").name = "ratio".to_string()),
        FreezeError::NoRatioInput,
        "model has no downsample_ratio input; already frozen?",
    );
    check(
        fault(|g| input(g, "src").name = "image".to_string()),
        FreezeError::NoInput { input: 0 },
        "model has no input src",
    );
    check(
        fault(|g| input(g, "r3i").name = "image".to_string()),
        FreezeError::NoInput { input: 3 },
        "model has no input r3i",
    );
    check(
        fault(|g| input(g, "r1i").type_ = MessageField::none()),
        FreezeError::UntypedInput,
        "input has no type",
    );
    check(
        fault(|g| *input(g, "r2i") = port("r2i", open_dims(5))),
        FreezeError::InputRank { input: 2, rank: 5 },
        "r2i should be rank 4, got 5",
    );
    check(
        fault(|g| {
            let mut kind = TypeProto::new();
            kind.mut_sequence_type();
            input(g, "src").type_ = MessageField::some(kind);
        }),
        FreezeError::InputRank { input: 0, rank: 0 },
        "src should be rank 4, got 0",
    );
}

#[test]
fn an_encoded_model_is_frozen() {
    let source = stock(R50);
    let bytes = source.write_to_bytes().unwrap();
    let out = prepare_model(&bytes, Backbone::Resnet50, 1024, 576, single(0.5)).unwrap();
    let frozen = ModelProto::parse_from_bytes(&out).unwrap();
    assert_eq!(frozen, freeze_model(source, 1024, 576, single(0.5)).unwrap());
}

#[test]
fn a_mismatched_backbone_is_refused() {
    let bytes = stock(R50).write_to_bytes().unwrap();
    let error = prepare_model(&bytes, Backbone::Mobilenetv3, 1024, 576, single(0.5)).unwrap_err();
    assert_eq!(
        error.message(),
        "--model Mobilenetv3 expects state channels [16, 20, 40, 64] but this model declares \
         [16, 32, 64, 128]; pass the matching --model"
    );
}

#[test]
fn what_is_no_model_is_refused() {
    let error = prepare_model(b"\xff\xff\xff", Backbone::Resnet50, 1024, 576, single(0.5));
    let error = error.unwrap_err();
    assert!(matches!(error, PrepareError::NotOnnx));
    assert_eq!(error.message(), "not a valid ONNX model");
    // No bytes at all are a model without a graph.
    let error = prepare_model(&[], Backbone::Resnet50, 1024, 576, single(0.5)).unwrap_err();
    assert_eq!(error.message(), "model has no graph");
    let once = freeze_model(stock(R50), 1024, 576, single(0.5)).unwrap();
    let bytes = once.write_to_bytes().unwrap();
    let error = prepare_model(&bytes, Backbone::Resnet50, 1024, 576, single(0.5)).unwrap_err();
    assert_eq!(error.message(), "model has no downsample_ratio input; already frozen?");
    assert_eq!(
        PrepareError::NotEncodable.message(),
        "the frozen model is too large to be encoded"
    );
}

#[test]
fn groups_that_nest_too_deep_are_refused() {
    let groups = |n: usize| [vec![0x0b; n], vec![0x0c; n]].concat();
    let prepare = |bytes: &[u8]| {
        prepare_model(bytes, Backbone::Resnet50, 1024, 576, single(0.5)).unwrap_err().message()
    };
    assert_eq!(prepare(&groups(1000)), "model has no graph");
    assert_eq!(prepare(&groups(1001)), "not a valid ONNX model");
    assert_eq!(prepare(&vec![0x0b; 3_000_000]), "not a valid ONNX model");
    // A model with unknown groups in it is frozen without them.
    let mut bytes = stock(R50).write_to_bytes().unwrap();
    let plain = prepare_model(&bytes, Backbone::Resnet50, 1024, 576, single(0.5)).unwrap();
    bytes.extend(groups(1000));
    assert_eq!(
        prepare_model(&bytes, Backbone::Resnet50, 1024, 576, single(0.5)).unwrap(),
        plain
    );
}

#[test]
fn models_are_checked_before_they_are_frozen() {
    let bytes = stock(R50).write_to_bytes().unwrap();
    assert!(check_model(&bytes, Backbone::Resnet50).is_ok());
    let error = check_model(&bytes, Backbone::Mobilenetv3);
    assert!(matches!(error, Err(PrepareError::Channels { declared: R50, .. })));
    assert!(matches!(check_model(&[0xff], Backbone::Resnet50), Err(PrepareError::NotOnnx)));
    // That it takes no ratio is found only when it is frozen.
    let once = freeze_model(stock(R50), 1024, 576, single(0.5)).unwrap();
    assert!(check_model(&once.write_to_bytes().unwrap(), Backbone::Resnet50).is_ok());
}
