//! Rewriting a stock RVM graph into one that MIGraphX can compile.

use crate::number::Number;
use crate::onnx;
use crate::onnx::PortInfo;
use crate::precision;
use crate::rounding;
use crate::single::Single;
use crate::text;
use onnx_protobuf::ModelProto;
use vstd::arithmetic::div_mod;
use vstd::arithmetic::power2;
use vstd::prelude::*;

verus! {

/// Concrete shapes for RVM's four recurrent state tensors.
#[derive(Debug, Clone, Copy, PartialEq, Eq)]
pub struct StateShapes {
    pub channels: [i64; 4],
    /// (height, width) per state level.
    pub spatial: [(i64, i64); 4],
}

/// Why a model cannot be read or frozen. Levels count from 1, and an input is
/// `src` at 0 and a state above.
#[derive(Debug, Clone, Copy, PartialEq, Eq, Structural)]
pub enum FreezeError {
    NoGraph,
    NoOutput { level: u8 },
    UntypedOutput,
    OutputRank { level: u8, rank: usize },
    NoChannels { level: u8 },
    NoRatioInput,
    NoInput { input: u8 },
    UntypedInput,
    InputRank { input: u8, rank: usize },
}

/// `r1o` to `r4o`.
pub open spec fn output_name(level: int) -> Seq<char> {
    "r"@ + text::digits(level as nat) + "o"@
}

/// `src`, and `r1i` to `r4i`.
pub open spec fn input_name(input: int) -> Seq<char> {
    if input == 0 {
        "src"@
    } else {
        "r"@ + text::digits(input as nat) + "i"@
    }
}

/// Where the first port of a name is, or the end.
pub open spec fn port_at(ports: Seq<onnx::Port>, name: Seq<char>) -> int
    decreases ports.len(),
{
    if ports.len() == 0 || ports[0].name == name {
        0
    } else {
        1 + port_at(ports.subrange(1, ports.len() as int), name)
    }
}

/// The channel width that a graph declares for one state.
pub open spec fn channel(graph: onnx::Graph, level: u8) -> Result<i64, FreezeError> {
    let i = port_at(graph.outputs, output_name(level as int));
    let port = graph.outputs[i];
    if i >= graph.outputs.len() {
        Err(FreezeError::NoOutput { level })
    } else if !port.typed {
        Err(FreezeError::UntypedOutput)
    } else if port.dims.len() != 4 {
        Err(FreezeError::OutputRank { level, rank: port.dims.len() as usize })
    } else {
        match onnx::fixed_value(port.dims[1]) {
            Some(width) if width > 0 => Ok(width),
            _ => Err(FreezeError::NoChannels { level }),
        }
    }
}

/// The channel widths of the four states, or the first thing that is wrong.
pub open spec fn channels(graph: Option<onnx::Graph>) -> Result<Seq<i64>, FreezeError> {
    match graph {
        None => Err(FreezeError::NoGraph),
        Some(g) => match (channel(g, 1), channel(g, 2), channel(g, 3), channel(g, 4)) {
            (Err(e), _, _, _) => Err(e),
            (_, Err(e), _, _) => Err(e),
            (_, _, Err(e), _) => Err(e),
            (_, _, _, Err(e)) => Err(e),
            (Ok(a), Ok(b), Ok(c), Ok(d)) => Ok(seq![a, b, c, d]),
        },
    }
}

/// A side of the frame, downsampled.
pub open spec fn downsampled(side: u32, ratio: Number) -> int {
    Number::whole(side as nat).times(ratio).whole_long()
}

/// Division that rounds towards zero.
pub open spec fn cut_quotient(a: int, b: int) -> int {
    if a >= 0 {
        a / b
    } else {
        -((-a) / b)
    }
}

/// How many steps of `b` it takes to cover `a`.
pub open spec fn covering(a: int, b: int) -> int {
    cut_quotient(a + b - 1, b)
}

/// How much smaller than the downsampled frame the state of a level is.
pub open spec fn stride(level: int) -> int {
    if level == 1 {
        2
    } else if level == 2 {
        4
    } else if level == 3 {
        8
    } else {
        16
    }
}

/// Height and width of the state of a level.
pub open spec fn spatial(width: u32, height: u32, ratio: Number, level: int) -> (int, int) {
    (
        covering(downsampled(height, ratio), stride(level)),
        covering(downsampled(width, ratio), stride(level)),
    )
}

impl StateShapes {
    /// Whether these are the shapes for some channel widths and a frame size.
    pub open spec fn are(
        &self,
        widths: Seq<i64>,
        width: u32,
        height: u32,
        ratio: Number,
    ) -> bool {
        &&& self.channels@ == widths
        &&& forall|i: int|
            0 <= i < 4 ==> (
                (#[trigger] self.spatial@[i]).0 as int,
                self.spatial@[i].1 as int,
            ) == spatial(width, height, ratio, i + 1)
    }
}

/// Finds the first port of a name.
fn find_port(infos: &Vec<PortInfo>, name: &str, Ghost(ports): Ghost<Seq<onnx::Port>>) -> (at: usize)
    requires
        onnx::describe(infos@, ports),
    ensures
        at <= infos@.len(),
        at == port_at(ports, name@),
{
    let wanted = name.to_owned();
    let mut i: usize = 0;
    assert(ports.subrange(0, ports.len() as int) =~= ports);
    while i < infos.len()
        invariant
            i <= infos@.len(),
            wanted@ == name@,
            onnx::describe(infos@, ports),
            port_at(ports, name@) == i + port_at(
                ports.subrange(i as int, ports.len() as int),
                name@,
            ),
        decreases infos.len() - i,
    {
        let ghost rest = ports.subrange(i as int, ports.len() as int);
        assert(infos@[i as int].describes(ports[i as int]));
        if infos[i].name == wanted {
            assert(rest[0].name == name@);
            return i;
        }
        assert(rest.subrange(1, rest.len() as int) =~= ports.subrange(
            i + 1,
            ports.len() as int,
        ));
        i = i + 1;
    }
    i
}

fn output_named(level: u8) -> (name: String)
    ensures
        name@ == output_name(level as int),
{
    "r".to_owned().concat(text::decimal(level as u64).as_str()).concat("o")
}

fn input_named(input: u8) -> (name: String)
    ensures
        name@ == input_name(input as int),
{
    if input == 0 {
        "src".to_owned()
    } else {
        "r".to_owned().concat(text::decimal(input as u64).as_str()).concat("i")
    }
}

fn read_channel(
    outputs: &Vec<PortInfo>,
    level: u8,
    Ghost(graph): Ghost<onnx::Graph>,
) -> (width: Result<i64, FreezeError>)
    requires
        onnx::describe(outputs@, graph.outputs),
    ensures
        width == channel(graph, level),
{
    let i = find_port(outputs, output_named(level).as_str(), Ghost(graph.outputs));
    if i >= outputs.len() {
        return Err(FreezeError::NoOutput { level });
    }
    let ghost declared = graph.outputs[i as int];
    assert(outputs@[i as int].describes(declared));
    let port = &outputs[i];
    if !port.typed {
        return Err(FreezeError::UntypedOutput);
    }
    let rank = port.dims.len();
    assert(rank == declared.dims.len());
    if rank != 4 {
        return Err(FreezeError::OutputRank { level, rank });
    }
    assert(port.dims@[1] == onnx::as_read(declared.dims[1]));
    let (fixed, value) = port.dims[1];
    if !fixed || value <= 0 {
        return Err(FreezeError::NoChannels { level });
    }
    Ok(value)
}

/// RVM declares its recurrent channel widths statically on the r1o..r4o
/// outputs even when everything else is dynamic. Read them from there rather
/// than assuming a backbone: MobileNetV3 and ResNet50 differ.
pub fn read_state_channels(model: &ModelProto) -> (widths: Result<[i64; 4], FreezeError>)
    ensures
        match (widths, channels(onnx::graph_of(*model))) {
            (Ok(w), Ok(c)) => w@ == c,
            (Err(e), Err(f)) => e == f,
            _ => false,
        },
{
    if !onnx::has_graph(model) {
        return Err(FreezeError::NoGraph);
    }
    let outputs = onnx::outputs(model);
    let ghost graph = onnx::graph_of(*model)->0;
    let a = match read_channel(&outputs, 1, Ghost(graph)) {
        Ok(w) => w,
        Err(e) => {
            assert(channel(graph, 1) == Err::<i64, FreezeError>(e));
            return Err(e);
        },
    };
    let b = match read_channel(&outputs, 2, Ghost(graph)) {
        Ok(w) => w,
        Err(e) => {
            assert(channel(graph, 1) == Ok::<i64, FreezeError>(a));
            assert(channel(graph, 2) == Err::<i64, FreezeError>(e));
            return Err(e);
        },
    };
    let c = match read_channel(&outputs, 3, Ghost(graph)) {
        Ok(w) => w,
        Err(e) => {
            assert(channel(graph, 1) == Ok::<i64, FreezeError>(a));
            assert(channel(graph, 2) == Ok::<i64, FreezeError>(b));
            assert(channel(graph, 3) == Err::<i64, FreezeError>(e));
            return Err(e);
        },
    };
    assert(channel(graph, 1) == Ok::<i64, FreezeError>(a));
    assert(channel(graph, 2) == Ok::<i64, FreezeError>(b));
    assert(channel(graph, 3) == Ok::<i64, FreezeError>(c));
    match read_channel(&outputs, 4, Ghost(graph)) {
        Ok(d) => {
            assert(channel(graph, 4) == Ok::<i64, FreezeError>(d));
            let widths = [a, b, c, d];
            assert(widths@ =~= seq![a, b, c, d]);
            Ok(widths)
        },
        Err(e) => {
            assert(channel(graph, 4) == Err::<i64, FreezeError>(e));
            Err(e)
        },
    }
}

/// How many steps of `b` it takes to cover `a`.
pub fn div_ceil(a: i64, b: i64) -> (n: i64)
    requires
        b > 0,
    ensures
        n == covering(a as int, b as int),
        a >= 0 ==> (n - 1) * b < a <= n * b,
{
    let top: i128 = a as i128 + (b as i128 - 1);
    proof {
        lemma_quotient(top as int, b as int);
        lemma_quotient(-(top as int), b as int);
    }
    if top >= 0 {
        (top / b as i128) as i64
    } else {
        let size: i128 = -top;
        (-(size / b as i128)) as i64
    }
}

proof fn lemma_quotient(a: int, b: int)
    requires
        b > 0,
    ensures
        a >= 0 ==> 0 <= a / b <= a,
        (a / b) * b <= a < (a / b + 1) * b,
        (a / b - 1) * b <= a - b,
        a - b < (a / b) * b,
        a <= i64::MAX + b - 1 ==> a / b <= i64::MAX,
{
    let q = a / b;
    div_mod::lemma_fundamental_div_mod(a, b);
    div_mod::lemma_mod_bound(a, b);
    assert(b * q == q * b) by (nonlinear_arith);
    assert((q + 1) * b == q * b + b) by (nonlinear_arith);
    assert((q - 1) * b == q * b - b) by (nonlinear_arith);
    assert(a >= 0 ==> 0 <= q <= a) by (nonlinear_arith)
        requires
            q * b <= a < q * b + b,
            b > 0,
    ;
    if a <= i64::MAX + b - 1 {
        assert(q <= i64::MAX) by (nonlinear_arith)
            requires
                q * b <= a,
                a <= i64::MAX + b - 1,
                b > 0,
        ;
    }
}

pub fn state_shapes(model: &ModelProto, width: u32, height: u32, ratio: Single) -> (shapes: Result<
    StateShapes,
    FreezeError,
>)
    ensures
        match (shapes, channels(onnx::graph_of(*model))) {
            (Ok(s), Ok(c)) => s.are(c, width, height, ratio@),
            (Err(e), Err(f)) => e == f,
            _ => false,
        },
        shapes matches Ok(s) ==> {
            let dh = downsampled(height, ratio@);
            let dw = downsampled(width, ratio@);
            &&& dh >= 0 ==> {
                &&& 2 * (s.spatial[0].0 - 1) < dh <= 2 * s.spatial[0].0
                &&& 4 * (s.spatial[1].0 - 1) < dh <= 4 * s.spatial[1].0
                &&& 8 * (s.spatial[2].0 - 1) < dh <= 8 * s.spatial[2].0
                &&& 16 * (s.spatial[3].0 - 1) < dh <= 16 * s.spatial[3].0
            }
            &&& dw >= 0 ==> {
                &&& 2 * (s.spatial[0].1 - 1) < dw <= 2 * s.spatial[0].1
                &&& 4 * (s.spatial[1].1 - 1) < dw <= 4 * s.spatial[1].1
                &&& 8 * (s.spatial[2].1 - 1) < dw <= 8 * s.spatial[2].1
                &&& 16 * (s.spatial[3].1 - 1) < dw <= 16 * s.spatial[3].1
            }
        },
{
    let channels = match read_state_channels(model) {
        Ok(c) => c,
        Err(e) => return Err(e),
    };
    let dw = Single::from_u32(width).times(ratio).whole_long();
    let dh = Single::from_u32(height).times(ratio).whole_long();
    let spatial = [
        (div_ceil(dh, 2), div_ceil(dw, 2)),
        (div_ceil(dh, 4), div_ceil(dw, 4)),
        (div_ceil(dh, 8), div_ceil(dw, 8)),
        (div_ceil(dh, 16), div_ceil(dw, 16)),
    ];
    Ok(StateShapes { channels, spatial })
}

/// The inputs that are left once the ratio is none of them.
pub open spec fn without_ratio(inputs: Seq<onnx::Port>) -> Seq<onnx::Port> {
    inputs.filter(|port: onnx::Port| port.name != "downsample_ratio"@)
}

/// The shape that an input is pinned to.
pub open spec fn wanted(
    widths: Seq<i64>,
    width: u32,
    height: u32,
    ratio: Number,
    input: u8,
) -> Seq<i64> {
    if input == 0 {
        seq![1i64, 3i64, height as i64, width as i64]
    } else {
        let (h, w) = spatial(width, height, ratio, input as int);
        seq![1i64, widths[input - 1], h as i64, w as i64]
    }
}

pub open spec fn fixed(dims: Seq<i64>) -> Seq<onnx::Dim> {
    Seq::new(dims.len(), |i: int| onnx::Dim::Fixed { value: dims[i] })
}

/// The inputs once one of them is pinned.
pub open spec fn pinned(inputs: Seq<onnx::Port>, input: u8, dims: Seq<i64>) -> Result<
    Seq<onnx::Port>,
    FreezeError,
> {
    let i = port_at(inputs, input_name(input as int));
    let port = inputs[i];
    if i >= inputs.len() {
        Err(FreezeError::NoInput { input })
    } else if !port.typed {
        Err(FreezeError::UntypedInput)
    } else if port.dims.len() != dims.len() {
        Err(FreezeError::InputRank { input, rank: port.dims.len() as usize })
    } else {
        Ok(inputs.update(i, onnx::Port { dims: fixed(dims), ..port }))
    }
}

/// The inputs once the first `count` of `src` and the four states are pinned.
pub open spec fn pinned_first(
    inputs: Seq<onnx::Port>,
    count: nat,
    widths: Seq<i64>,
    width: u32,
    height: u32,
    ratio: Number,
) -> Result<Seq<onnx::Port>, FreezeError>
    decreases count,
{
    if count == 0 {
        Ok(inputs)
    } else {
        let input = (count - 1) as u8;
        match pinned_first(inputs, (count - 1) as nat, widths, width, height, ratio) {
            Ok(ports) => pinned(ports, input, wanted(widths, width, height, ratio, input)),
            Err(e) => Err(e),
        }
    }
}

/// The constant that takes the place of the ratio input: one binary32 value.
pub open spec fn ratio_constant(ratio: Single) -> onnx::Constant {
    onnx::Constant {
        name: "downsample_ratio"@,
        data_type: 1,
        dims: seq![1i64],
        floats: seq![ratio.bits],
        rest: seq![],
    }
}

/// What a frozen model declares, or why it cannot be frozen.
pub open spec fn frozen(
    graph: Option<onnx::Graph>,
    width: u32,
    height: u32,
    ratio: Single,
) -> Result<onnx::Graph, FreezeError> {
    match channels(graph) {
        Err(e) => Err(e),
        Ok(widths) => {
            let g = graph->0;
            let kept = without_ratio(g.inputs);
            if kept.len() == g.inputs.len() {
                Err(FreezeError::NoRatioInput)
            } else {
                match pinned_first(kept, 5, widths, width, height, ratio@) {
                    Err(e) => Err(e),
                    Ok(inputs) => Ok(
                        onnx::Graph {
                            inputs,
                            outputs: g.outputs,
                            constants: g.constants.push(ratio_constant(ratio)),
                        },
                    ),
                }
            }
        },
    }
}

/// Takes the ratio out of the inputs, and says whether it was there.
fn remove_ratio(model: &mut ModelProto) -> (removed: bool)
    requires
        onnx::graph_of(*old(model)) is Some,
    ensures
        ({
            let g = onnx::graph_of(*old(model))->0;
            &&& onnx::is_readable(*old(model)) ==> onnx::is_readable(*final(model))
            &&& onnx::rest_of(*final(model)) == onnx::rest_of(*old(model))
            &&& onnx::graph_of(*final(model)) == Some(
                onnx::Graph { inputs: without_ratio(g.inputs), ..g },
            )
            &&& removed == (without_ratio(g.inputs).len() != g.inputs.len())
        }),
{
    let ports = onnx::inputs(model);
    let ghost g = onnx::graph_of(*model)->0;
    let ghost rest = onnx::rest_of(*model);
    let ghost readable = onnx::is_readable(*model);
    let ghost keeps = |port: onnx::Port| port.name != "downsample_ratio"@;
    let ghost all = g.inputs;
    let name = "downsample_ratio".to_owned();
    let mut at: usize = 0;
    let mut i: usize = 0;
    proof {
        reveal(Seq::filter);
        assert(all.subrange(0, 0).filter(keeps) + all.subrange(0, all.len() as int) =~= all);
        assert((onnx::Graph { inputs: all, ..g }) == g);
    }
    while i < ports.len()
        invariant
            i <= ports@.len(),
            at <= i,
            name@ == "downsample_ratio"@,
            onnx::describe(ports@, all),
            all == g.inputs,
            readable ==> onnx::is_readable(*model),
            keeps == (|port: onnx::Port| port.name != "downsample_ratio"@),
            at == all.subrange(0, i as int).filter(keeps).len(),
            onnx::rest_of(*model) == rest,
            onnx::graph_of(*model) == Some(
                onnx::Graph {
                    inputs: all.subrange(0, i as int).filter(keeps) + all.subrange(
                        i as int,
                        all.len() as int,
                    ),
                    ..g
                },
            ),
        decreases ports.len() - i,
    {
        let ghost done = all.subrange(0, i as int).filter(keeps);
        let ghost left = all.subrange(i as int, all.len() as int);
        let ghost tail = all.subrange(i + 1, all.len() as int);
        let ghost next = all.subrange(0, i + 1);
        proof {
            reveal(Seq::filter);
            assert(next.drop_last() =~= all.subrange(0, i as int));
            assert(ports@[i as int].describes(next.last()));
        }
        if ports[i].name == name {
            onnx::remove_input(model, at);
            assert((done + left).remove(at as int) =~= next.filter(keeps) + tail);
        } else {
            assert(done + left =~= next.filter(keeps) + tail);
            at = at + 1;
        }
        i = i + 1;
    }
    assert(all.subrange(0, all.len() as int) =~= all);
    assert(all.filter(keeps) + all.subrange(all.len() as int, all.len() as int) =~= all.filter(
        keeps,
    ));
    at != ports.len()
}

/// Pins one input to a shape.
fn pin_input(model: &mut ModelProto, input: u8, dims: [i64; 4]) -> (done: Result<(), FreezeError>)
    requires
        onnx::graph_of(*old(model)) is Some,
    ensures
        ({
            let g = onnx::graph_of(*old(model))->0;
            &&& onnx::is_readable(*old(model)) ==> onnx::is_readable(*final(model))
            &&& onnx::rest_of(*final(model)) == onnx::rest_of(*old(model))
            &&& match (done, pinned(g.inputs, input, dims@)) {
                (Ok(_), Ok(inputs)) => onnx::graph_of(*final(model)) == Some(
                    onnx::Graph { inputs, ..g },
                ),
                (Err(e), Err(f)) => e == f,
                _ => false,
            }
        }),
{
    let ports = onnx::inputs(model);
    let ghost g = onnx::graph_of(*model)->0;
    let ghost rest = onnx::rest_of(*model);
    let ghost readable = onnx::is_readable(*model);
    let i = find_port(&ports, input_named(input).as_str(), Ghost(g.inputs));
    if i >= ports.len() {
        return Err(FreezeError::NoInput { input });
    }
    let ghost port = g.inputs[i as int];
    assert(ports@[i as int].describes(port));
    if !ports[i].typed {
        return Err(FreezeError::UntypedInput);
    }
    let rank = ports[i].dims.len();
    assert(rank == port.dims.len());
    if rank != 4 {
        return Err(FreezeError::InputRank { input, rank });
    }
    let mut j: usize = 0;
    proof {
        assert(fixed(dims@).subrange(0, 0) + port.dims.subrange(0, 4) =~= port.dims);
        assert(g.inputs.update(i as int, port) =~= g.inputs);
        assert((onnx::Port { dims: port.dims, ..port }) == port);
        assert((onnx::Graph { inputs: g.inputs, ..g }) == g);
    }
    while j < 4
        invariant
            j <= 4,
            i < g.inputs.len(),
            dims@.len() == 4,
            port == g.inputs[i as int],
            port.typed,
            port.dims.len() == 4,
            readable ==> onnx::is_readable(*model),
            onnx::rest_of(*model) == rest,
            onnx::graph_of(*model) == Some(
                onnx::Graph {
                    inputs: g.inputs.update(
                        i as int,
                        onnx::Port {
                            dims: fixed(dims@).subrange(0, j as int) + port.dims.subrange(
                                j as int,
                                4,
                            ),
                            ..port
                        },
                    ),
                    ..g
                },
            ),
        decreases 4 - j,
    {
        let ghost before = fixed(dims@).subrange(0, j as int) + port.dims.subrange(j as int, 4);
        let ghost after = fixed(dims@).subrange(0, j + 1) + port.dims.subrange(j + 1, 4);
        let ghost here = g.inputs.update(i as int, onnx::Port { dims: before, ..port });
        proof {
            assert(here[i as int] == (onnx::Port { dims: before, ..port }));
            assert(before.update(j as int, onnx::Dim::Fixed { value: dims@[j as int] }) =~= after);
            assert(here.update(i as int, onnx::Port { dims: after, ..port }) =~= g.inputs.update(
                i as int,
                onnx::Port { dims: after, ..port },
            ));
        }
        onnx::pin_dimension(model, i, j, dims[j]);
        j = j + 1;
    }
    assert(fixed(dims@).subrange(0, 4) + port.dims.subrange(4, 4) =~= fixed(dims@));
    Ok(())
}

/// Rewrite a stock RVM graph into one MIGraphX can compile:
/// demote `downsample_ratio` to a constant initializer and pin every input dim.
pub fn freeze_model(model: ModelProto, width: u32, height: u32, ratio: Single) -> (result: Result<
    ModelProto,
    FreezeError,
>)
    ensures
        match (result, frozen(onnx::graph_of(model), width, height, ratio)) {
            (Ok(m), Ok(g)) => onnx::graph_of(m) == Some(g) && onnx::rest_of(m) == onnx::rest_of(
                model,
            ) && (onnx::is_readable(model) ==> onnx::is_readable(m)),
            (Err(e), Err(f)) => e == f,
            _ => false,
        },
        result matches Ok(m) ==> {
            let was = onnx::graph_of(model)->0;
            let now = onnx::graph_of(m)->0;
            let new = now.constants.last();
            &&& onnx::graph_of(model) is Some
            &&& onnx::graph_of(m) is Some
            &&& now.outputs == was.outputs
            &&& now.constants.len() == was.constants.len() + 1
            &&& now.constants.drop_last() == was.constants
            &&& new.name == "downsample_ratio"@
            &&& new.data_type == 1
            &&& new.dims == seq![1i64]
            &&& new.floats == seq![ratio.bits]
            &&& new.rest.len() == 0
        },
{
    let ghost original = model;
    let shapes = match state_shapes(&model, width, height, ratio) {
        Ok(s) => s,
        Err(e) => return Err(e),
    };
    let ghost g = onnx::graph_of(model)->0;
    let ghost widths = shapes.channels@;
    let ghost kept = without_ratio(g.inputs);
    let ghost readable = onnx::is_readable(model);
    let mut model = model;
    // downsample_ratio: graph input -> initializer. This is what makes the
    // internal Resize ops constant, which MIGraphX requires.
    if !remove_ratio(&mut model) {
        return Err(FreezeError::NoRatioInput);
    }
    let one: Vec<i64> = vec![1];
    assert(one@ =~= seq![1i64]);
    onnx::push_constant(&mut model, "downsample_ratio", 1, one, ratio.to_bits());
    let ghost constants = g.constants.push(ratio_constant(ratio));
    let ghost rest = onnx::rest_of(model);
    // Pin src and the four recurrent states.
    let mut input: u8 = 0;
    #[verifier::loop_isolation(false)]
    while input < 5
        invariant
            input <= 5,
            widths == shapes.channels@,
            shapes.are(widths, width, height, ratio@),
            readable ==> onnx::is_readable(model),
            onnx::rest_of(model) == rest,
            onnx::graph_of(model) matches Some(now) && now.outputs == g.outputs && now.constants
                == constants && pinned_first(
                kept,
                input as nat,
                widths,
                width,
                height,
                ratio@,
            ) == Ok::<Seq<onnx::Port>, FreezeError>(now.inputs),
        decreases 5 - input,
    {
        let dims: [i64; 4] = if input == 0 {
            [1, 3, height as i64, width as i64]
        } else {
            let (h, w) = shapes.spatial[(input - 1) as usize];
            [1, shapes.channels[(input - 1) as usize], h, w]
        };
        proof {
            assert(dims@ =~= wanted(widths, width, height, ratio@, input));
        }
        match pin_input(&mut model, input, dims) {
            Ok(_) => {},
            Err(e) => {
                proof {
                    lemma_pin_fails(
                        kept,
                        (input + 1) as nat,
                        5,
                        widths,
                        width,
                        height,
                        ratio@,
                    );
                }
                return Err(e);
            },
        }
        input = input + 1;
    }
    proof {
        law_frozen_constants(
            onnx::graph_of(original),
            width,
            height,
            ratio,
            onnx::graph_of(model)->0,
        );
    }
    Ok(model)
}

/// Once pinning has failed, going on does not help.
proof fn lemma_pin_fails(
    inputs: Seq<onnx::Port>,
    failed: nat,
    count: nat,
    widths: Seq<i64>,
    width: u32,
    height: u32,
    ratio: Number,
)
    requires
        failed <= count,
        pinned_first(inputs, failed, widths, width, height, ratio) is Err,
    ensures
        pinned_first(inputs, count, widths, width, height, ratio) == pinned_first(
            inputs,
            failed,
            widths,
            width,
            height,
            ratio,
        ),
    decreases count,
{
    if failed < count {
        lemma_pin_fails(inputs, failed, (count - 1) as nat, widths, width, height, ratio);
    }
}

/// What an error says.
pub open spec fn error_text(error: FreezeError) -> Seq<char> {
    match error {
        FreezeError::NoGraph => "model has no graph"@,
        FreezeError::NoOutput { level } => "model has no output "@ + output_name(level as int)
            + "; is this an RVM export?"@,
        FreezeError::UntypedOutput => "output has no type"@,
        FreezeError::OutputRank { level, rank } => output_name(level as int)
            + " should be rank 4, got "@ + text::digits(rank as nat),
        FreezeError::NoChannels { level } => output_name(level as int)
            + " has no static channel dim"@,
        FreezeError::NoRatioInput => "model has no downsample_ratio input; already frozen?"@,
        FreezeError::NoInput { input } => "model has no input "@ + input_name(input as int),
        FreezeError::UntypedInput => "input has no type"@,
        FreezeError::InputRank { input, rank } => input_name(input as int)
            + " should be rank 4, got "@ + text::digits(rank as nat),
    }
}

impl FreezeError {
    pub fn message(self) -> (text: String)
        ensures
            text@ == error_text(self),
    {
        match self {
            FreezeError::NoGraph => "model has no graph".to_owned(),
            FreezeError::NoOutput { level } => "model has no output ".to_owned().concat(
                output_named(level).as_str(),
            ).concat("; is this an RVM export?"),
            FreezeError::UntypedOutput => "output has no type".to_owned(),
            FreezeError::OutputRank { level, rank } => output_named(level).concat(
                " should be rank 4, got ",
            ).concat(text::decimal(rank as u64).as_str()),
            FreezeError::NoChannels { level } => output_named(level).concat(
                " has no static channel dim",
            ),
            FreezeError::NoRatioInput => {
                "model has no downsample_ratio input; already frozen?".to_owned()
            },
            FreezeError::NoInput { input } => "model has no input ".to_owned().concat(
                input_named(input).as_str(),
            ),
            FreezeError::UntypedInput => "input has no type".to_owned(),
            FreezeError::InputRank { input, rank } => input_named(input).concat(
                " should be rank 4, got ",
            ).concat(text::decimal(rank as u64).as_str()),
        }
    }
}

/// Whether two ports differ in nothing but their dimensions.
pub open spec fn same_but_dims(a: onnx::Port, b: onnx::Port) -> bool {
    a == (onnx::Port { dims: a.dims, ..b })
}

/// Whether two lists hold ports that differ in nothing but their dimensions.
pub open spec fn all_same_but_dims(a: Seq<onnx::Port>, b: Seq<onnx::Port>) -> bool {
    &&& a.len() == b.len()
    &&& forall|i: int| 0 <= i < a.len() ==> same_but_dims(#[trigger] a[i], b[i])
}

proof fn lemma_port_at(ports: Seq<onnx::Port>, name: Seq<char>)
    ensures
        0 <= port_at(ports, name) <= ports.len(),
        port_at(ports, name) < ports.len() ==> ports[port_at(ports, name)].name == name,
        forall|j: int| 0 <= j < port_at(ports, name) ==> (#[trigger] ports[j]).name != name,
    decreases ports.len(),
{
    if ports.len() > 0 && ports[0].name != name {
        let rest = ports.subrange(1, ports.len() as int);
        lemma_port_at(rest, name);
        assert forall|j: int| 0 <= j < port_at(ports, name) implies (#[trigger] ports[j]).name
            != name by {
            if j > 0 {
                assert(rest[j - 1].name != name);
            }
        }
    }
}

/// Whether a port is the first one of a name.
pub open spec fn is_first(ports: Seq<onnx::Port>, i: int, name: Seq<char>) -> bool {
    &&& 0 <= i < ports.len()
    &&& ports[i].name == name
    &&& forall|j: int| 0 <= j < i ==> (#[trigger] ports[j]).name != name
}

proof fn lemma_first(ports: Seq<onnx::Port>, i: int, name: Seq<char>)
    requires
        is_first(ports, i, name),
    ensures
        port_at(ports, name) == i,
{
    lemma_port_at(ports, name);
    let at = port_at(ports, name);
    if at < i {
        assert(ports[at].name != name);
    }
}

proof fn lemma_same_place(a: Seq<onnx::Port>, b: Seq<onnx::Port>, name: Seq<char>)
    requires
        all_same_but_dims(a, b),
    ensures
        port_at(a, name) == port_at(b, name),
    decreases a.len(),
{
    if a.len() > 0 {
        assert(a[0].name == b[0].name);
        let x = a.subrange(1, a.len() as int);
        let y = b.subrange(1, b.len() as int);
        assert forall|i: int| 0 <= i < x.len() implies same_but_dims(#[trigger] x[i], y[i]) by {
            assert(same_but_dims(a[i + 1], b[i + 1]));
        }
        lemma_same_place(x, y, name);
    }
}

/// The five pinned inputs and the ratio have six names.
proof fn lemma_names_differ(a: u8, b: u8)
    requires
        a < 5,
        b < 5,
    ensures
        a != b ==> input_name(a as int) != input_name(b as int),
        input_name(a as int) != "downsample_ratio"@,
{
    reveal_strlit("src");
    reveal_strlit("r");
    reveal_strlit("i");
    reveal_strlit("downsample_ratio");
    assert(input_name(0).len() == 3 && input_name(0)[0] == 's');
    if a > 0 {
        assert(text::digits(a as nat).len() == 1);
        assert(input_name(a as int).len() == 3);
        assert(input_name(a as int)[0] == 'r');
        assert(input_name(a as int)[1] == text::digit_char(a as nat));
    }
    if b > 0 {
        assert(text::digits(b as nat).len() == 1);
        assert(input_name(b as int)[0] == 'r');
        assert(input_name(b as int)[1] == text::digit_char(b as nat));
    }
}

/// What pinning the first inputs comes to.
proof fn lemma_pinned_first(
    inputs: Seq<onnx::Port>,
    count: nat,
    widths: Seq<i64>,
    width: u32,
    height: u32,
    ratio: Number,
)
    requires
        count <= 5,
        pinned_first(inputs, count, widths, width, height, ratio) is Ok,
    ensures
        ({
            let ports = pinned_first(inputs, count, widths, width, height, ratio)->Ok_0;
            &&& all_same_but_dims(ports, inputs)
            &&& forall|input: u8|
                input < count ==> is_pinned(
                    ports,
                    #[trigger] input_name(input as int),
                    wanted(widths, width, height, ratio, input),
                )
            &&& forall|i: int|
                0 <= i < inputs.len() && (forall|input: u8|
                    input < count ==> inputs[i].name != #[trigger] input_name(input as int))
                    ==> #[trigger] ports[i] == inputs[i]
        }),
    decreases count,
{
    if count > 0 {
        let last = (count - 1) as u8;
        lemma_pinned_first(inputs, (count - 1) as nat, widths, width, height, ratio);
        let before = pinned_first(
            inputs,
            (count - 1) as nat,
            widths,
            width,
            height,
            ratio,
        )->Ok_0;
        let ports = pinned_first(inputs, count, widths, width, height, ratio)->Ok_0;
        let at = port_at(before, input_name(last as int));
        lemma_port_at(before, input_name(last as int));
        assert(all_same_but_dims(ports, before));
        assert forall|input: u8| input < count implies is_pinned(
            ports,
            #[trigger] input_name(input as int),
            wanted(widths, width, height, ratio, input),
        ) by {
            lemma_same_place(ports, before, input_name(input as int));
            if input != last {
                lemma_names_differ(input, last);
                assert(is_pinned(
                    before,
                    input_name(input as int),
                    wanted(widths, width, height, ratio, input),
                ));
                lemma_port_at(before, input_name(input as int));
            }
        }
        assert forall|i: int|
            0 <= i < inputs.len() && (forall|input: u8|
                input < count ==> inputs[i].name != #[trigger] input_name(
                    input as int,
                )) implies #[trigger] ports[i] == inputs[i] by {
            assert(before[i].name == inputs[i].name);
            assert(inputs[i].name != input_name(last as int));
            assert(before[i] == inputs[i]);
        }
    }
}

/// Whether the first port of a name has a given fixed shape.
pub open spec fn is_pinned(ports: Seq<onnx::Port>, name: Seq<char>, dims: Seq<i64>) -> bool {
    let i = port_at(ports, name);
    i < ports.len() && ports[i].typed && ports[i].dims == fixed(dims)
}

/// A frozen model takes no ratio any more: the ratio is its last constant. The
/// inputs `src` and `r1i` to `r4i` have fixed shapes, and are otherwise as they
/// were. All other inputs, all outputs and all other constants, the weights
/// among them, are just as they were.
pub proof fn law_frozen_model(
    graph: Option<onnx::Graph>,
    width: u32,
    height: u32,
    ratio: Single,
    frozen_graph: onnx::Graph,
)
    requires
        frozen(graph, width, height, ratio) == Ok::<onnx::Graph, FreezeError>(frozen_graph),
    ensures
        graph is Some,
        channels(graph) is Ok,
        forall|i: int|
            0 <= i < frozen_graph.inputs.len() ==> (#[trigger] frozen_graph.inputs[i]).name
                != "downsample_ratio"@,
        frozen_graph.constants == graph->0.constants.push(ratio_constant(ratio)),
        frozen_graph.outputs == graph->0.outputs,
        forall|input: u8|
            input < 5 ==> is_pinned(
                frozen_graph.inputs,
                #[trigger] input_name(input as int),
                wanted(channels(graph)->Ok_0, width, height, ratio@, input),
            ),
        all_same_but_dims(frozen_graph.inputs, without_ratio(graph->0.inputs)),
        forall|i: int|
            0 <= i < frozen_graph.inputs.len() && (forall|input: u8|
                input < 5 ==> frozen_graph.inputs[i].name != #[trigger] input_name(input as int))
                ==> #[trigger] frozen_graph.inputs[i] == without_ratio(graph->0.inputs)[i],
{
    let inputs = graph->0.inputs;
    let kept = without_ratio(inputs);
    let keeps = |port: onnx::Port| port.name != "downsample_ratio"@;
    let widths = channels(graph)->Ok_0;
    lemma_pinned_first(kept, 5, widths, width, height, ratio@);
    assert forall|i: int| 0 <= i < frozen_graph.inputs.len() implies (
    #[trigger] frozen_graph.inputs[i]).name != "downsample_ratio"@ by {
        assert(frozen_graph.inputs[i].name == kept[i].name);
        inputs.lemma_filter_pred(keeps, i);
    }
    assert forall|i: int|
        0 <= i < frozen_graph.inputs.len() && (forall|input: u8|
            input < 5 ==> frozen_graph.inputs[i].name != #[trigger] input_name(
                input as int,
            )) implies #[trigger] frozen_graph.inputs[i] == kept[i] by {
        assert(frozen_graph.inputs[i].name == kept[i].name);
    }
}

/// The ratio input of a frozen model has become a constant: one binary32 value,
/// which is the ratio, behind all the constants that were there.
pub proof fn law_frozen_constants(
    graph: Option<onnx::Graph>,
    width: u32,
    height: u32,
    ratio: Single,
    frozen_graph: onnx::Graph,
)
    requires
        frozen(graph, width, height, ratio) == Ok::<onnx::Graph, FreezeError>(frozen_graph),
    ensures
        graph is Some,
        frozen_graph.outputs == graph->0.outputs,
        frozen_graph.constants.len() == graph->0.constants.len() + 1,
        frozen_graph.constants.drop_last() == graph->0.constants,
        frozen_graph.constants.last().name == "downsample_ratio"@,
        frozen_graph.constants.last().data_type == 1,
        frozen_graph.constants.last().dims == seq![1i64],
        frozen_graph.constants.last().floats == seq![ratio.bits],
        frozen_graph.constants.last().rest.len() == 0,
{
    assert(frozen_graph.constants.drop_last() =~= graph->0.constants);
}

/// Freezing takes every input named `downsample_ratio` away and keeps all the
/// others in order. A model that has none is refused.
pub proof fn law_ratio_input_is_removed(
    graph: onnx::Graph,
    width: u32,
    height: u32,
    ratio: Single,
)
    requires
        channels(Some(graph)) is Ok,
    ensures
        (forall|i: int|
            0 <= i < graph.inputs.len() ==> (#[trigger] graph.inputs[i]).name
                != "downsample_ratio"@) ==> frozen(Some(graph), width, height, ratio) == Err::<
            onnx::Graph,
            FreezeError,
        >(FreezeError::NoRatioInput),
        (exists|i: int|
            0 <= i < graph.inputs.len() && (#[trigger] graph.inputs[i]).name
                == "downsample_ratio"@) ==> frozen(Some(graph), width, height, ratio) != Err::<
            onnx::Graph,
            FreezeError,
        >(FreezeError::NoRatioInput),
        frozen(Some(graph), width, height, ratio) matches Ok(f) ==> {
            let names = graph.inputs.map_values(|port: onnx::Port| port.name);
            f.inputs.map_values(|port: onnx::Port| port.name) == names.filter(
                |name: Seq<char>| name != "downsample_ratio"@,
            )
        },
{
    let keeps = |port: onnx::Port| port.name != "downsample_ratio"@;
    if forall|i: int|
        0 <= i < graph.inputs.len() ==> (#[trigger] graph.inputs[i]).name
            != "downsample_ratio"@ {
        lemma_filter_all(graph.inputs, keeps);
    }
    if exists|i: int|
        0 <= i < graph.inputs.len() && (#[trigger] graph.inputs[i]).name == "downsample_ratio"@ {
        let i = choose|i: int|
            0 <= i < graph.inputs.len() && (#[trigger] graph.inputs[i]).name
                == "downsample_ratio"@;
        lemma_filter_some(graph.inputs, keeps, i);
        lemma_pin_error(
            without_ratio(graph.inputs),
            5,
            channels(Some(graph))->Ok_0,
            width,
            height,
            ratio@,
        );
    }
    if frozen(Some(graph), width, height, ratio) is Ok {
        let f = frozen(Some(graph), width, height, ratio)->Ok_0;
        law_frozen_model(Some(graph), width, height, ratio, f);
        lemma_names_filtered(graph.inputs);
        let kept = without_ratio(graph.inputs);
        let name_of = |port: onnx::Port| port.name;
        assert forall|i: int| 0 <= i < kept.len() implies f.inputs.map_values(name_of)[i]
            == kept.map_values(name_of)[i] by {
            assert(same_but_dims(f.inputs[i], kept[i]));
        }
        assert(f.inputs.map_values(name_of) =~= kept.map_values(name_of));
    }
}

proof fn lemma_filter_some(
    ports: Seq<onnx::Port>,
    keeps: spec_fn(onnx::Port) -> bool,
    i: int,
)
    requires
        0 <= i < ports.len(),
        !keeps(ports[i]),
    ensures
        ports.filter(keeps).len() < ports.len(),
    decreases ports.len(),
{
    reveal(Seq::filter);
    let before = ports.drop_last();
    before.lemma_filter_len(keeps);
    if i < ports.len() - 1 {
        lemma_filter_some(before, keeps, i);
    }
}

proof fn lemma_names_filtered(ports: Seq<onnx::Port>)
    ensures
        without_ratio(ports).map_values(|port: onnx::Port| port.name) == ports.map_values(
            |port: onnx::Port| port.name,
        ).filter(|name: Seq<char>| name != "downsample_ratio"@),
    decreases ports.len(),
{
    reveal(Seq::filter);
    let name_of = |port: onnx::Port| port.name;
    let stays = |name: Seq<char>| name != "downsample_ratio"@;
    if ports.len() > 0 {
        let before = ports.drop_last();
        lemma_names_filtered(before);
        assert(ports.map_values(name_of).drop_last() =~= before.map_values(name_of));
        assert(without_ratio(ports).map_values(name_of) =~= if stays(ports.last().name) {
            without_ratio(before).map_values(name_of).push(ports.last().name)
        } else {
            without_ratio(before).map_values(name_of)
        });
    } else {
        assert(without_ratio(ports).map_values(name_of) =~= ports.map_values(name_of).filter(stays));
    }
}

/// Pinning never complains of the ratio.
proof fn lemma_pin_error(
    inputs: Seq<onnx::Port>,
    count: nat,
    widths: Seq<i64>,
    width: u32,
    height: u32,
    ratio: Number,
)
    ensures
        pinned_first(inputs, count, widths, width, height, ratio) matches Err(e)
            ==> !(e is NoRatioInput),
    decreases count,
{
    if count > 0 {
        lemma_pin_error(inputs, (count - 1) as nat, widths, width, height, ratio);
    }
}

/// The image input of a frozen model takes one RGB image of the frame's size.
pub proof fn law_frozen_image_input(
    graph: Option<onnx::Graph>,
    width: u32,
    height: u32,
    ratio: Single,
    frozen_graph: onnx::Graph,
    i: int,
)
    requires
        frozen(graph, width, height, ratio) == Ok::<onnx::Graph, FreezeError>(frozen_graph),
        is_first(frozen_graph.inputs, i, "src"@),
    ensures
        frozen_graph.inputs[i].typed,
        frozen_graph.inputs[i].dims == seq![
            onnx::Dim::Fixed { value: 1 },
            onnx::Dim::Fixed { value: 3 },
            onnx::Dim::Fixed { value: height as i64 },
            onnx::Dim::Fixed { value: width as i64 },
        ],
{
    law_frozen_model(graph, width, height, ratio, frozen_graph);
    lemma_first(frozen_graph.inputs, i, "src"@);
    assert(is_pinned(
        frozen_graph.inputs,
        input_name(0u8 as int),
        wanted(channels(graph)->Ok_0, width, height, ratio@, 0u8),
    ));
    assert(frozen_graph.inputs[i].dims =~= seq![
        onnx::Dim::Fixed { value: 1 },
        onnx::Dim::Fixed { value: 3 },
        onnx::Dim::Fixed { value: height as i64 },
        onnx::Dim::Fixed { value: width as i64 },
    ]);
}

/// A state input of a frozen model takes one tensor, with as many channels as
/// the state output of the same level declares. Its height and width are those
/// of the downsampled frame, divided by 2, 4, 8 or 16 and rounded up.
pub proof fn law_frozen_state_input(
    graph: Option<onnx::Graph>,
    width: u32,
    height: u32,
    ratio: Single,
    frozen_graph: onnx::Graph,
    level: int,
    i: int,
    o: int,
)
    requires
        frozen(graph, width, height, ratio) == Ok::<onnx::Graph, FreezeError>(frozen_graph),
        1 <= level <= 4,
        is_first(
            frozen_graph.inputs,
            i,
            if level == 1 {
                "r1i"@
            } else if level == 2 {
                "r2i"@
            } else if level == 3 {
                "r3i"@
            } else {
                "r4i"@
            },
        ),
        is_first(
            graph->0.outputs,
            o,
            if level == 1 {
                "r1o"@
            } else if level == 2 {
                "r2o"@
            } else if level == 3 {
                "r3o"@
            } else {
                "r4o"@
            },
        ),
        downsampled(height, ratio@) >= 0,
        downsampled(width, ratio@) >= 0,
    ensures
        ({
            let port = frozen_graph.inputs[i];
            let declared = graph->0.outputs[o];
            let step: int = if level == 1 {
                2
            } else if level == 2 {
                4
            } else if level == 3 {
                8
            } else {
                16
            };
            &&& port.typed
            &&& port.dims.len() == 4
            &&& port.dims[0] == (onnx::Dim::Fixed { value: 1 })
            &&& declared.typed
            &&& declared.dims.len() == 4
            &&& port.dims[1] == declared.dims[1]
            &&& port.dims[1] is Fixed
            &&& port.dims[1]->value > 0
            &&& port.dims[2] is Fixed
            &&& step * (port.dims[2]->value - 1) < downsampled(height, ratio@) <= step
                * port.dims[2]->value
            &&& port.dims[3] is Fixed
            &&& step * (port.dims[3]->value - 1) < downsampled(width, ratio@) <= step
                * port.dims[3]->value
        }),
{
    law_frozen_model(graph, width, height, ratio, frozen_graph);
    lemma_level_names(level);
    let input = level as u8;
    lemma_first(frozen_graph.inputs, i, input_name(input as int));
    lemma_first(graph->0.outputs, o, output_name(level));
    let widths = channels(graph)->Ok_0;
    assert(is_pinned(
        frozen_graph.inputs,
        input_name(input as int),
        wanted(widths, width, height, ratio@, input),
    ));
    assert(channel(graph->0, input) == Ok::<i64, FreezeError>(widths[level - 1]));
    law_state_side_rounds_up(height, ratio@, level);
    law_state_side_rounds_up(width, ratio@, level);
    let dims = wanted(widths, width, height, ratio@, input);
    assert(frozen_graph.inputs[i].dims == fixed(dims));
    let (h, w) = spatial(width, height, ratio@, level);
    lemma_downsampled_fits(height, ratio@);
    lemma_downsampled_fits(width, ratio@);
    assert(h <= i64::MAX && w <= i64::MAX);
    assert(fixed(dims)[2] == (onnx::Dim::Fixed { value: h as i64 }));
    assert(fixed(dims)[3] == (onnx::Dim::Fixed { value: w as i64 }));
}

proof fn lemma_downsampled_fits(side: u32, ratio: Number)
    ensures
        downsampled(side, ratio) <= i64::MAX,
{
    let product = Number::whole(side as nat).times(ratio);
    precision::lemma_one();
    if product is Finite {
        lemma_quotient(product->units as int, power2::pow2(149) as int);
    }
}

proof fn lemma_level_names(level: int)
    requires
        1 <= level <= 4,
    ensures
        input_name(level) == if level == 1 {
            "r1i"@
        } else if level == 2 {
            "r2i"@
        } else if level == 3 {
            "r3i"@
        } else {
            "r4i"@
        },
        output_name(level) == if level == 1 {
            "r1o"@
        } else if level == 2 {
            "r2o"@
        } else if level == 3 {
            "r3o"@
        } else {
            "r4o"@
        },
{
    reveal_strlit("r");
    reveal_strlit("i");
    reveal_strlit("o");
    reveal_strlit("r1i");
    reveal_strlit("r2i");
    reveal_strlit("r3i");
    reveal_strlit("r4i");
    reveal_strlit("r1o");
    reveal_strlit("r2o");
    reveal_strlit("r3o");
    reveal_strlit("r4o");
    assert(text::digits(level as nat) =~= seq![text::digit_char(level as nat)]);
    assert(text::digit_char(1) == '1');
    assert(text::digit_char(2) == '2');
    assert(text::digit_char(3) == '3');
    assert(text::digit_char(4) == '4');
    let digit = text::digit_char(level as nat);
    assert(input_name(level) =~= seq!['r', digit, 'i']);
    assert(output_name(level) =~= seq!['r', digit, 'o']);
    assert("r1i"@ =~= seq!['r', '1', 'i']);
    assert("r2i"@ =~= seq!['r', '2', 'i']);
    assert("r3i"@ =~= seq!['r', '3', 'i']);
    assert("r4i"@ =~= seq!['r', '4', 'i']);
    assert("r1o"@ =~= seq!['r', '1', 'o']);
    assert("r2o"@ =~= seq!['r', '2', 'o']);
    assert("r3o"@ =~= seq!['r', '3', 'o']);
    assert("r4o"@ =~= seq!['r', '4', 'o']);
}

/// A downsampled side is the product of side and ratio, cut to whole pixels. The
/// product is off by no more than one part in 2^24 and half of the smallest
/// number there is.
pub proof fn law_downsampled_side(side: u32, ratio: Number)
    requires
        side < 0x100_0000,
        ratio is Finite,
        !ratio.is_negative(),
        ratio.signed() <= precision::one(),
    ensures
        ({
            let d = downsampled(side, ratio);
            let exact = side * ratio.signed();
            &&& d >= 0
            &&& 0x100_0000 * (d * precision::one() - exact) <= exact + 0x80_0000
            &&& 0x100_0000 * (exact - (d + 1) * precision::one()) < exact + 0x80_0000
        }),
{
    let one = precision::one();
    precision::lemma_one();
    precision::lemma_whole(side as nat);
    let a = Number::whole(side as nat);
    let units = ratio->units;
    let n = a->units * units;
    let exact = side * ratio.signed();
    precision::lemma_rounded_fine(n, one as nat);
    let t = rounding::rounded(n, one as nat);
    assert(n == exact * one) by (nonlinear_arith)
        requires
            n == (side * one) * units,
            exact == side * units,
    ;
    assert(0 <= exact <= 0x100_0000 * one) by (nonlinear_arith)
        requires
            exact == side * units,
            0 <= side < 0x100_0000,
            0 <= units <= one,
    ;
    let e = t - exact;
    assert(t * one - n == e * one) by (nonlinear_arith)
        requires
            n == exact * one,
            e == t - exact,
    ;
    assert(0x100_0000 * e <= exact + 0x80_0000) by (nonlinear_arith)
        requires
            0x100_0000 * (e * one) <= exact * one + 0x80_0000 * one,
            one > 0,
    ;
    assert(-0x100_0000 * e <= exact + 0x80_0000) by (nonlinear_arith)
        requires
            -0x100_0000 * (e * one) <= exact * one + 0x80_0000 * one,
            one > 0,
    ;
    assert(t <= 0x200_0000 * one);
    power2::lemma_pow2_adds(149, 128);
    power2::lemma_pow2_strictly_increases(64, 128);
    power2::lemma2_to64();
    assert(t < power2::pow2(277)) by (nonlinear_arith)
        requires
            t <= 0x200_0000 * one,
            power2::pow2(149) == one,
            power2::pow2(277) == power2::pow2(149) * power2::pow2(128),
            power2::pow2(128) > 0x200_0000,
            one > 0,
    ;
    let d = (t / (one as nat)) as int;
    lemma_quotient(t as int, one);
    assert(d <= 0x200_0000) by (nonlinear_arith)
        requires
            d * one <= t,
            t <= 0x200_0000 * one,
            one > 0,
    ;
    assert(downsampled(side, ratio) == d);
}

/// A frozen model cannot be frozen again, at any size or ratio.
pub proof fn law_frozen_once(
    graph: Option<onnx::Graph>,
    width: u32,
    height: u32,
    ratio: Single,
    frozen_graph: onnx::Graph,
    new_width: u32,
    new_height: u32,
    new_ratio: Single,
)
    requires
        frozen(graph, width, height, ratio) == Ok::<onnx::Graph, FreezeError>(frozen_graph),
    ensures
        frozen(Some(frozen_graph), new_width, new_height, new_ratio) == Err::<
            onnx::Graph,
            FreezeError,
        >(FreezeError::NoRatioInput),
{
    law_frozen_model(graph, width, height, ratio, frozen_graph);
    let keeps = |port: onnx::Port| port.name != "downsample_ratio"@;
    lemma_filter_all(frozen_graph.inputs, keeps);
    let g = graph->0;
    assert(channel(frozen_graph, 1) == channel(g, 1));
    assert(channel(frozen_graph, 2) == channel(g, 2));
    assert(channel(frozen_graph, 3) == channel(g, 3));
    assert(channel(frozen_graph, 4) == channel(g, 4));
}

proof fn lemma_filter_all(ports: Seq<onnx::Port>, keeps: spec_fn(onnx::Port) -> bool)
    requires
        forall|i: int| 0 <= i < ports.len() ==> keeps(#[trigger] ports[i]),
    ensures
        ports.filter(keeps) == ports,
    decreases ports.len(),
{
    reveal(Seq::filter);
    if ports.len() > 0 {
        lemma_filter_all(ports.drop_last(), keeps);
        assert(ports.drop_last().push(ports.last()) =~= ports);
    } else {
        assert(ports.filter(keeps) =~= ports);
    }
}

/// The side of a state is the downsampled side divided by the stride, rounded
/// up. Each level is half the one before, rounded up.
pub proof fn law_state_side_rounds_up(side: u32, ratio: Number, level: int)
    requires
        1 <= level <= 4,
        downsampled(side, ratio) >= 0,
    ensures
        ({
            let a = downsampled(side, ratio);
            let n = covering(a, stride(level));
            &&& n >= 0
            &&& n * stride(level) >= a
            &&& (n - 1) * stride(level) < a
            &&& level < 4 ==> covering(a, stride(level + 1)) == covering(n, 2)
        }),
{
}

/// The name of the state output of a level.
pub open spec fn state_output(level: int) -> Seq<char> {
    if level == 1 {
        "r1o"@
    } else if level == 2 {
        "r2o"@
    } else if level == 3 {
        "r3o"@
    } else {
        "r4o"@
    }
}

/// The name of the image input, and of the state input of a level.
pub open spec fn pinned_input(input: int) -> Seq<char> {
    if input == 0 {
        "src"@
    } else if input == 1 {
        "r1i"@
    } else if input == 2 {
        "r2i"@
    } else if input == 3 {
        "r3i"@
    } else {
        "r4i"@
    }
}

/// The channel widths of a model are read off the second dimension of the first
/// outputs named `r1o` to `r4o`, which have four dimensions each. Where that
/// cannot be done, the error says what is missing.
pub proof fn law_channels_are_declared(graph: onnx::Graph)
    ensures
        match channels(Some(graph)) {
            Ok(widths) => widths.len() == 4 && forall|level: int, o: int|
                1 <= level <= 4 && #[trigger] is_first(graph.outputs, o, state_output(level))
                    ==> graph.outputs[o].typed && graph.outputs[o].dims.len() == 4
                    && graph.outputs[o].dims[1] == (onnx::Dim::Fixed { value: widths[level - 1] })
                    && widths[level - 1] > 0,
            Err(FreezeError::NoOutput { level }) => 1 <= level <= 4 && forall|o: int|
                0 <= o < graph.outputs.len() ==> (#[trigger] graph.outputs[o]).name
                    != state_output(level as int),
            Err(FreezeError::UntypedOutput) => exists|level: int, o: int|
                1 <= level <= 4 && #[trigger] is_first(graph.outputs, o, state_output(level))
                    && !graph.outputs[o].typed,
            Err(FreezeError::OutputRank { level, rank }) => 1 <= level <= 4 && exists|o: int|
                #[trigger] is_first(graph.outputs, o, state_output(level as int))
                    && graph.outputs[o].dims.len() != 4 && graph.outputs[o].dims.len() as usize
                    == rank,
            Err(FreezeError::NoChannels { level }) => 1 <= level <= 4 && exists|o: int|
                #[trigger] is_first(graph.outputs, o, state_output(level as int)) && !(
                graph.outputs[o].dims[1] is Fixed && graph.outputs[o].dims[1]->value > 0),
            Err(_) => false,
        },
{
    lemma_channel(graph, 1);
    lemma_channel(graph, 2);
    lemma_channel(graph, 3);
    lemma_channel(graph, 4);
    if channels(Some(graph)) is Ok {
        let widths = channels(Some(graph))->Ok_0;
        assert forall|level: int, o: int|
            1 <= level <= 4 && #[trigger] is_first(
                graph.outputs,
                o,
                state_output(level),
            ) implies graph.outputs[o].typed && graph.outputs[o].dims.len() == 4
            && graph.outputs[o].dims[1] == (onnx::Dim::Fixed { value: widths[level - 1] })
            && widths[level - 1] > 0 by {
            lemma_level_names(level);
            lemma_first(graph.outputs, o, state_output(level));
            assert(channel(graph, level as u8) == Ok::<i64, FreezeError>(widths[level - 1]));
        }
    }
}

proof fn lemma_channel(graph: onnx::Graph, level: u8)
    requires
        1 <= level <= 4,
    ensures
        match channel(graph, level) {
            Ok(_) => true,
            Err(FreezeError::NoOutput { level: l }) => l == level && forall|o: int|
                0 <= o < graph.outputs.len() ==> (#[trigger] graph.outputs[o]).name
                    != state_output(level as int),
            Err(FreezeError::UntypedOutput) => exists|o: int|
                #[trigger] is_first(graph.outputs, o, state_output(level as int))
                    && !graph.outputs[o].typed,
            Err(FreezeError::OutputRank { level: l, rank }) => l == level && exists|o: int|
                #[trigger] is_first(graph.outputs, o, state_output(level as int))
                    && graph.outputs[o].dims.len() != 4 && graph.outputs[o].dims.len() as usize
                    == rank,
            Err(FreezeError::NoChannels { level: l }) => l == level && exists|o: int|
                #[trigger] is_first(graph.outputs, o, state_output(level as int)) && !(
                graph.outputs[o].dims[1] is Fixed && graph.outputs[o].dims[1]->value > 0),
            Err(_) => false,
        },
{
    lemma_level_names(level as int);
    let name = state_output(level as int);
    lemma_port_at(graph.outputs, name);
    let at = port_at(graph.outputs, name);
    if at < graph.outputs.len() {
        assert(is_first(graph.outputs, at, name));
    }
}

/// Pinning fails for an input that is not there, that has no type, or that has
/// not four dimensions.
pub proof fn law_input_cannot_be_pinned(
    graph: onnx::Graph,
    width: u32,
    height: u32,
    ratio: Single,
)
    requires
        channels(Some(graph)) is Ok,
    ensures
        match frozen(Some(graph), width, height, ratio) {
            Err(FreezeError::NoInput { input }) => input < 5 && forall|i: int|
                0 <= i < graph.inputs.len() ==> (#[trigger] graph.inputs[i]).name
                    != pinned_input(input as int),
            Err(FreezeError::UntypedInput) => exists|i: int|
                0 <= i < graph.inputs.len() && !(#[trigger] graph.inputs[i]).typed,
            Err(FreezeError::InputRank { input, rank }) => input < 5 && exists|i: int|
                0 <= i < graph.inputs.len() && (#[trigger] graph.inputs[i]).name == pinned_input(
                    input as int,
                ) && graph.inputs[i].dims.len() != 4 && graph.inputs[i].dims.len() as usize == rank,
            Err(e) => e is NoRatioInput,
            Ok(_) => true,
        },
{
    let kept = without_ratio(graph.inputs);
    let widths = channels(Some(graph))->Ok_0;
    let keeps = |port: onnx::Port| port.name != "downsample_ratio"@;
    if kept.len() != graph.inputs.len() {
        lemma_pin_refusal(kept, 5, widths, width, height, ratio@);
        assert forall|i: int| 0 <= i < kept.len() implies graph.inputs.contains(
            #[trigger] kept[i],
        ) by {
            graph.inputs.lemma_filter_contains_rev(keeps, kept[i]);
        }
        match pinned_first(kept, 5, widths, width, height, ratio@) {
            Err(FreezeError::NoInput { input }) => {
                lemma_pinned_names(input as int);
                assert forall|i: int| 0 <= i < graph.inputs.len() implies (
                #[trigger] graph.inputs[i]).name != pinned_input(input as int) by {
                    if graph.inputs[i].name == pinned_input(input as int) {
                        lemma_names_differ(input, input);
                        graph.inputs.lemma_filter_contains(keeps, i);
                        let k = choose|k: int|
                            0 <= k < kept.len() && kept[k] == graph.inputs[i];
                        assert(kept[k].name == pinned_input(input as int));
                    }
                }
            },
            Err(FreezeError::UntypedInput) => {
                let k = choose|k: int| 0 <= k < kept.len() && !(#[trigger] kept[k]).typed;
                assert(graph.inputs.contains(kept[k]));
            },
            Err(FreezeError::InputRank { input, rank }) => {
                let k = choose|k: int|
                    0 <= k < kept.len() && (#[trigger] kept[k]).name == pinned_input(
                        input as int,
                    ) && kept[k].dims.len() != 4 && kept[k].dims.len() as usize == rank;
                assert(graph.inputs.contains(kept[k]));
            },
            _ => {},
        }
    }
}

proof fn lemma_pinned_names(input: int)
    requires
        0 <= input < 5,
    ensures
        input_name(input) == pinned_input(input),
{
    if input > 0 {
        lemma_level_names(input);
    }
}

proof fn lemma_pin_refusal(
    inputs: Seq<onnx::Port>,
    count: nat,
    widths: Seq<i64>,
    width: u32,
    height: u32,
    ratio: Number,
)
    requires
        count <= 5,
    ensures
        match pinned_first(inputs, count, widths, width, height, ratio) {
            Err(FreezeError::NoInput { input }) => input < count && forall|i: int|
                0 <= i < inputs.len() ==> (#[trigger] inputs[i]).name != pinned_input(input as int),
            Err(FreezeError::UntypedInput) => exists|i: int|
                0 <= i < inputs.len() && !(#[trigger] inputs[i]).typed,
            Err(FreezeError::InputRank { input, rank }) => input < count && exists|i: int|
                0 <= i < inputs.len() && (#[trigger] inputs[i]).name == pinned_input(input as int)
                    && inputs[i].dims.len() != 4 && inputs[i].dims.len() as usize == rank,
            Err(_) => false,
            Ok(_) => true,
        },
    decreases count,
{
    if count > 0 {
        let less = (count - 1) as nat;
        let last = less as u8;
        lemma_pin_refusal(inputs, less, widths, width, height, ratio);
        if pinned_first(inputs, less, widths, width, height, ratio) is Ok {
            lemma_pinned_first(inputs, less, widths, width, height, ratio);
            lemma_pinned_names(last as int);
            let before = pinned_first(inputs, less, widths, width, height, ratio)->Ok_0;
            let name = pinned_input(last as int);
            lemma_port_at(before, name);
            let at = port_at(before, name);
            if at < before.len() {
                assert(same_but_dims(before[at], inputs[at]));
                assert forall|input: u8| input < less implies inputs[at].name
                    != #[trigger] input_name(input as int) by {
                    lemma_names_differ(input, last);
                }
                assert(before[at] == inputs[at]);
            } else {
                assert forall|i: int| 0 <= i < inputs.len() implies (
                #[trigger] inputs[i]).name != name by {
                    assert(before[i].name == inputs[i].name);
                }
            }
        }
    }
}

} // verus!
