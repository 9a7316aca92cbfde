//! What the matting network carries from frame to frame, and what it is given.
//!
//! The network itself runs elsewhere. `Matting` decides what goes into a run
//! and keeps what comes out of it; a tensor that it only passes on is a `T`.

use crate::single::Single;
use crate::text;
use vstd::prelude::*;

verus! {

/// Which matting network a prepared model contains.
///
/// Detected from the graph rather than configured: RVM carries recurrent state
/// inputs (`r1i`..`r4i`), BackgroundMattingV2 takes a second image (`bgr`).
#[derive(Debug, Clone, Copy, PartialEq, Eq, Structural)]
pub enum Arch {
    /// Robust Video Matting: recurrent, no background plate needed.
    Rvm,
    /// BackgroundMattingV2: needs a photo of the empty scene.
    Bgmv2,
}

/// What the elements of a tensor are.
#[derive(Debug)]
pub enum Element {
    Float32,
    Float16,
    Other { name: String },
}

#[derive(Debug)]
pub struct TensorInfo {
    pub element: Element,
    pub shape: Vec<i64>,
}

/// An input that a loaded model declares.
#[derive(Debug)]
pub struct InputInfo {
    pub name: String,
    /// Nothing where the input is no tensor.
    pub tensor: Option<TensorInfo>,
}

/// Why a loaded model cannot be used. Levels count from 1.
#[derive(Debug)]
pub enum LoadError {
    NoState { level: u8 },
    StateNotTensor { level: u8 },
    NoSrc,
    SrcNotTensor,
    Element { name: String },
}

/// Why a frame cannot be matted.
#[derive(Debug, Clone, Copy, PartialEq, Eq, Structural)]
pub enum MattingError {
    NeedsPlate,
    PlateLength { given: usize, expected: usize },
    MissingState { level: u8 },
}

/// The four recurrent state tensors.
#[derive(Debug)]
pub struct States<T> {
    pub r1: T,
    pub r2: T,
    pub r3: T,
    pub r4: T,
}

/// What to run the network on, besides the frame.
#[derive(Debug)]
pub enum Request<T> {
    /// The state of the last frame, or zeros where there is none.
    Rvm { state: Option<States<T>> },
    /// The background plate.
    Bgmv2,
}

/// Where the first input of a name is, or the end.
pub open spec fn input_at(inputs: Seq<InputInfo>, name: Seq<char>) -> int
    decreases inputs.len(),
{
    if inputs.len() == 0 || inputs[0].name@ == name {
        0
    } else {
        1 + input_at(inputs.subrange(1, inputs.len() as int), name)
    }
}

pub open spec fn declares(inputs: Seq<InputInfo>, name: Seq<char>) -> bool {
    input_at(inputs, name) < inputs.len()
}

/// The tensor that the first input of a name is.
pub open spec fn tensor_of(inputs: Seq<InputInfo>, name: Seq<char>) -> Option<TensorInfo> {
    inputs[input_at(inputs, name)].tensor
}

pub open spec fn state_name(level: int) -> Seq<char> {
    "r"@ + text::digits(level as nat) + "i"@
}

/// What is wrong with the declaration of one state, if anything.
pub open spec fn state_fault(inputs: Seq<InputInfo>, level: u8) -> Option<LoadError> {
    if !declares(inputs, state_name(level as int)) {
        Some(LoadError::NoState { level })
    } else if tensor_of(inputs, state_name(level as int)) is None {
        Some(LoadError::StateNotTensor { level })
    } else {
        None
    }
}

/// The architecture that the inputs show.
pub open spec fn detected(inputs: Seq<InputInfo>) -> Arch {
    if declares(inputs, "bgr"@) {
        Arch::Bgmv2
    } else {
        Arch::Rvm
    }
}

/// Whether an error is the one that a model with these inputs gives.
pub open spec fn load_refuses(inputs: Seq<InputInfo>, error: LoadError) -> bool {
    let rvm = detected(inputs) == Arch::Rvm;
    if rvm && state_fault(inputs, 1) is Some {
        state_fault(inputs, 1) == Some(error)
    } else if rvm && state_fault(inputs, 2) is Some {
        state_fault(inputs, 2) == Some(error)
    } else if rvm && state_fault(inputs, 3) is Some {
        state_fault(inputs, 3) == Some(error)
    } else if rvm && state_fault(inputs, 4) is Some {
        state_fault(inputs, 4) == Some(error)
    } else if !declares(inputs, "src"@) {
        error is NoSrc
    } else {
        match tensor_of(inputs, "src"@) {
            None => error is SrcNotTensor,
            Some(t) => match t.element {
                Element::Other { name } => error matches LoadError::Element { name: n } && n@
                    == name@,
                _ => false,
            },
        }
    }
}

/// Whether a model with these inputs can be used.
pub open spec fn load_accepts(inputs: Seq<InputInfo>) -> bool {
    &&& detected(inputs) == Arch::Rvm ==> state_fault(inputs, 1) is None && state_fault(inputs, 2)
        is None && state_fault(inputs, 3) is None && state_fault(inputs, 4) is None
    &&& declares(inputs, "src"@)
    &&& tensor_of(inputs, "src"@) matches Some(t) && !(t.element is Other)
}

fn find_input(inputs: &Vec<InputInfo>, name: &str) -> (at: usize)
    ensures
        at <= inputs@.len(),
        at == input_at(inputs@, name@),
{
    let ghost s = inputs@;
    let wanted = name.to_owned();
    let mut i: usize = 0;
    assert(s.subrange(0, s.len() as int) =~= s);
    while i < inputs.len()
        invariant
            i <= s.len(),
            s == inputs@,
            wanted@ == name@,
            input_at(s, name@) == i + input_at(s.subrange(i as int, s.len() as int), name@),
        decreases inputs.len() - i,
    {
        let ghost rest = s.subrange(i as int, s.len() as int);
        if inputs[i].name == wanted {
            assert(rest[0].name@ == name@);
            return i;
        }
        assert(rest.subrange(1, rest.len() as int) =~= s.subrange(i + 1, s.len() as int));
        i = i + 1;
    }
    i
}

/// Reads the shape that the model declares for one state.
fn read_state_shape(inputs: &Vec<InputInfo>, level: u8) -> (shape: Result<Vec<i64>, LoadError>)
    ensures
        match shape {
            Ok(s) => state_fault(inputs@, level) is None && s@ == tensor_of(
                inputs@,
                state_name(level as int),
            )->0.shape@,
            Err(e) => state_fault(inputs@, level) == Some(e),
        },
{
    let i = find_input(inputs, state_named(level).as_str());
    if i >= inputs.len() {
        return Err(LoadError::NoState { level });
    }
    match &inputs[i].tensor {
        Some(t) => {
            let shape = vstd::slice::slice_to_vec(t.shape.as_slice());
            Ok(shape)
        },
        None => Err(LoadError::StateNotTensor { level }),
    }
}

/// The product of the dimensions.
pub open spec fn element_count(shape: Seq<i64>) -> int
    decreases shape.len(),
{
    if shape.len() == 0 {
        1
    } else {
        element_count(shape.drop_last()) * shape.last()
    }
}

/// Whether the dimensions can be multiplied up in 64 bits, one after the other,
/// to a length.
pub open spec fn is_countable(shape: Seq<i64>) -> bool {
    &&& forall|k: int|
        0 <= k <= shape.len() ==> i64::MIN <= #[trigger] element_count(shape.subrange(0, k))
            <= i64::MAX
    &&& 0 <= element_count(shape) <= usize::MAX
}

fn count_elements(shape: &[i64]) -> (len: Option<usize>)
    ensures
        match len {
            Some(n) => is_countable(shape@) && n == element_count(shape@),
            None => !is_countable(shape@),
        },
{
    let mut product: i64 = 1;
    let mut i: usize = 0;
    assert(shape@.subrange(0, 0).len() == 0);
    while i < shape.len()
        invariant
            i <= shape@.len(),
            product == element_count(shape@.subrange(0, i as int)),
            forall|k: int|
                0 <= k <= i ==> i64::MIN <= #[trigger] element_count(shape@.subrange(0, k))
                    <= i64::MAX,
        decreases shape.len() - i,
    {
        let ghost next = shape@.subrange(0, i + 1);
        let d = shape[i];
        proof {
            assert(next.drop_last() =~= shape@.subrange(0, i as int));
            assert(next.last() == d);
            assert(-0x4000_0000_0000_0000_0000_0000_0000_0000 <= product * d
                <= 0x4000_0000_0000_0000_0000_0000_0000_0000) by (nonlinear_arith)
                requires
                    -0x8000_0000_0000_0000 <= product <= 0x7fff_ffff_ffff_ffff,
                    -0x8000_0000_0000_0000 <= d <= 0x7fff_ffff_ffff_ffff,
            ;
        }
        let wide: i128 = (product as i128) * (d as i128);
        if wide < i64::MIN as i128 || wide > i64::MAX as i128 {
            assert(element_count(next) == wide);
            return None;
        }
        product = wide as i64;
        i = i + 1;
    }
    assert(shape@.subrange(0, shape@.len() as int) =~= shape@);
    if product < 0 || product as u128 > usize::MAX as u128 {
        None
    } else {
        Some(product as usize)
    }
}

pub open spec fn load_error_text(error: LoadError) -> Seq<char> {
    match error {
        LoadError::NoState { level } => "frozen model has no input "@ + state_name(level as int),
        LoadError::StateNotTensor { level } => state_name(level as int) + " is not a tensor"@,
        LoadError::NoSrc => "frozen model has no `src` input"@,
        LoadError::SrcNotTensor => "`src` is not a tensor"@,
        LoadError::Element { name } => "unsupported `src` element type "@ + name@
            + "; use an fp32 or fp16 RVM export"@,
    }
}

fn state_named(level: u8) -> (name: String)
    ensures
        name@ == state_name(level as int),
{
    "r".to_owned().concat(text::decimal(level as u64).as_str()).concat("i")
}

impl LoadError {
    pub fn message(&self) -> (text: String)
        ensures
            text@ == load_error_text(*self),
    {
        match self {
            LoadError::NoState { level } => "frozen model has no input ".to_owned().concat(
                state_named(*level).as_str(),
            ),
            LoadError::StateNotTensor { level } => state_named(*level).concat(" is not a tensor"),
            LoadError::NoSrc => "frozen model has no `src` input".to_owned(),
            LoadError::SrcNotTensor => "`src` is not a tensor".to_owned(),
            LoadError::Element { name } => "unsupported `src` element type ".to_owned().concat(
                name.as_str(),
            ).concat("; use an fp32 or fp16 RVM export"),
        }
    }
}

pub open spec fn matting_error_text(error: MattingError) -> Seq<char> {
    match error {
        MattingError::NeedsPlate => "this model is BackgroundMattingV2 and needs a background plate; pass --plate <image> (capture one with `matting capture-plate`)"@,
        MattingError::PlateLength { given, expected } => "background plate has "@
            + text::digits(given as nat) + " values, expected "@ + text::digits(expected as nat),
        MattingError::MissingState { level } => "missing r"@ + text::digits(level as nat) + "o"@,
    }
}

impl MattingError {
    pub fn message(self) -> (text: String)
        ensures
            text@ == matting_error_text(self),
    {
        match self {
            MattingError::NeedsPlate => {
                "this model is BackgroundMattingV2 and needs a background plate; pass --plate <image> (capture one with `matting capture-plate`)".to_owned()
            },
            MattingError::PlateLength { given, expected } => "background plate has ".to_owned()
                .concat(text::decimal(given as u64).as_str()).concat(" values, expected ").concat(
                text::decimal(expected as u64).as_str(),
            ),
            MattingError::MissingState { level } => "missing r".to_owned().concat(
                text::decimal(level as u64).as_str(),
            ).concat("o"),
        }
    }
}

/// The network's side of the pipeline.
///
/// For RVM, state is moved in and out by ownership: it is handed out with a
/// request and kept when the reply brings the next one, so that the recurrence
/// costs nothing per frame.
#[derive(Debug)]
pub struct Matting<T> {
    arch: Arch,
    state: Option<States<T>>,
    state_shapes: Vec<Vec<i64>>,
    /// BackgroundMattingV2's background plate.
    plate: Vec<Single>,
    width: u32,
    height: u32,
    /// RVM publishes both fp32 and fp16 ONNX exports. The fp16 ones want
    /// float16 tensors on every input.
    fp16: bool,
    fgr: Vec<Single>,
    pha: Vec<Single>,
}

/// What does not change once a model is loaded.
pub struct Setup {
    pub arch: Arch,
    pub fp16: bool,
    pub width: u32,
    pub height: u32,
    pub state_shapes: Seq<Seq<i64>>,
}

pub open spec fn shape_views(shapes: Seq<Vec<i64>>) -> Seq<Seq<i64>> {
    Seq::new(shapes.len(), |i: int| shapes[i]@)
}

/// The setup that a model with these inputs gets.
pub open spec fn setup_for(inputs: Seq<InputInfo>, width: u32, height: u32) -> Setup {
    let arch = detected(inputs);
    Setup {
        arch,
        fp16: tensor_of(inputs, "src"@)->0.element is Float16,
        width,
        height,
        state_shapes: if arch == Arch::Rvm {
            seq![
                tensor_of(inputs, state_name(1))->0.shape@,
                tensor_of(inputs, state_name(2))->0.shape@,
                tensor_of(inputs, state_name(3))->0.shape@,
                tensor_of(inputs, state_name(4))->0.shape@,
            ]
        } else {
            seq![Seq::<i64>::empty(), Seq::empty(), Seq::empty(), Seq::empty()]
        },
    }
}

/// So many zeros.
pub open spec fn zeros(count: int) -> Seq<Single> {
    Seq::new(count as nat, |i: int| Single { bits: 0 })
}

/// `current` with its beginning replaced by as much of `new` as fits.
pub open spec fn overwritten(current: Seq<Single>, new: Seq<Single>) -> Seq<Single> {
    Seq::new(
        current.len(),
        |i: int| if i < new.len() {
            new[i]
        } else {
            current[i]
        },
    )
}

fn overwrite(current: &mut Vec<Single>, new: &[Single])
    ensures
        final(current)@ == overwritten(old(current)@, new@),
{
    let ghost before = current@;
    let mut i: usize = 0;
    while i < current.len() && i < new.len()
        invariant
            current@.len() == before.len(),
            i <= before.len(),
            i <= new@.len(),
            forall|j: int|
                0 <= j < before.len() ==> current@[j] == if j < i {
                    new@[j]
                } else {
                    before[j]
                },
        decreases before.len() - i,
    {
        current.set(i, new[i]);
        i = i + 1;
    }
    assert(current@ =~= overwritten(before, new@));
}

impl<T> Matting<T> {
    pub closed spec fn setup(&self) -> Setup {
        Setup {
            arch: self.arch,
            fp16: self.fp16,
            width: self.width,
            height: self.height,
            state_shapes: shape_views(self.state_shapes@),
        }
    }

    /// The temporal memory.
    pub closed spec fn memory(&self) -> Option<States<T>> {
        self.state
    }

    pub closed spec fn plate_values(&self) -> Seq<Single> {
        self.plate@
    }

    /// The last foreground and alpha.
    pub closed spec fn matte(&self) -> (Seq<Single>, Seq<Single>) {
        (self.fgr@, self.pha@)
    }

    /// The buffers fit the frame, and every state has a shape.
    pub open spec fn well_formed(&self) -> bool {
        let s = self.setup();
        &&& s.width * s.height <= u32::MAX
        &&& 3 * (s.width * s.height) <= usize::MAX
        &&& self.matte().0.len() == 3 * (s.width * s.height)
        &&& self.matte().1.len() == s.width * s.height
        &&& s.state_shapes.len() == 4
    }

    /// Sets up for a loaded model that declares these inputs.
    pub fn load(inputs: &Vec<InputInfo>, width: u32, height: u32) -> (matting: Result<
        Matting<T>,
        LoadError,
    >)
        requires
            width * height <= u32::MAX,
            3 * (width * height) <= usize::MAX,
        ensures
            match matting {
                Ok(m) => load_accepts(inputs@) && m.well_formed() && m.setup() == setup_for(
                    inputs@,
                    width,
                    height,
                ) && m.memory() is None && m.plate_values().len() == 0 && m.matte() == (
                    zeros(3 * (width * height)),
                    zeros(width * height),
                ),
                Err(e) => load_refuses(inputs@, e),
            },
            matting matches Ok(m) ==> {
                &&& m.setup().width == width
                &&& m.setup().height == height
                &&& m.setup().arch == Arch::Bgmv2 <==> exists|i: int|
                    0 <= i < inputs@.len() && (#[trigger] inputs@[i]).name@ == "bgr"@
                &&& forall|i: int|
                    is_first(inputs@, i, "src"@) ==> ((#[trigger] inputs@[i]).tensor matches Some(t)
                        && m.setup().fp16 == (t.element is Float16) && !(t.element is Other))
                &&& m.matte().0.len() == 3 * (width * height)
                &&& m.matte().1.len() == width * height
                &&& forall|k: int|
                    0 <= k < m.matte().0.len() ==> (#[trigger] m.matte().0[k]).bits == 0
                &&& forall|k: int|
                    0 <= k < m.matte().1.len() ==> (#[trigger] m.matte().1[k]).bits == 0
            },
    {
        let arch = if find_input(inputs, "bgr") < inputs.len() {
            Arch::Bgmv2
        } else {
            Arch::Rvm
        };
        // RVM's frozen graph pins every state shape; read them back so that
        // correctly sized zero tensors can be built for the first frame and on
        // reset.
        let mut state_shapes: Vec<Vec<i64>> = Vec::new();
        if arch == Arch::Rvm {
            let mut level: u8 = 1;
            while level <= 4
                invariant
                    1 <= level <= 5,
                    detected(inputs@) == Arch::Rvm,
                    state_shapes@.len() == level - 1,
                    forall|l: u8|
                        1 <= l < level ==> #[trigger] state_fault(inputs@, l) is None
                            && state_shapes@[l - 1]@ == tensor_of(
                            inputs@,
                            state_name(l as int),
                        )->0.shape@,
                decreases 5 - level,
            {
                match read_state_shape(inputs, level) {
                    Ok(shape) => state_shapes.push(shape),
                    Err(e) => return Err(e),
                }
                level = level + 1;
            }
            proof {
                assert(state_fault(inputs@, 1) is None);
                assert(state_fault(inputs@, 2) is None);
                assert(state_fault(inputs@, 3) is None);
                assert(state_fault(inputs@, 4) is None);
            }
        } else {
            state_shapes.push(Vec::new());
            state_shapes.push(Vec::new());
            state_shapes.push(Vec::new());
            state_shapes.push(Vec::new());
        }
        let i = find_input(inputs, "src");
        if i >= inputs.len() {
            return Err(LoadError::NoSrc);
        }
        let fp16 = match &inputs[i].tensor {
            None => return Err(LoadError::SrcNotTensor),
            Some(t) => match &t.element {
                Element::Float32 => false,
                Element::Float16 => true,
                Element::Other { name } => {
                    return Err(LoadError::Element { name: name.clone() });
                },
            },
        };
        proof {
            assert(shape_views(state_shapes@) =~= setup_for(inputs@, width, height).state_shapes);
        }
        proof {
            law_loaded_setup(inputs@, width, height);
        }
        let plane = (width * height) as usize;
        let zero = Single::from_bits(0);
        let fgr = vec![zero; plane * 3];
        let pha = vec![zero; plane];
        assert(fgr@ =~= zeros(3 * (width * height)));
        assert(pha@ =~= zeros(width * height));
        Ok(
            Matting {
                arch,
                state: None,
                state_shapes,
                plate: Vec::new(),
                width,
                height,
                fp16,
                fgr,
                pha,
            },
        )
    }

    pub fn arch(&self) -> (arch: Arch)
        ensures
            arch == self.setup().arch,
    {
        self.arch
    }

    /// Whether every tensor is to be handed over as binary16.
    pub fn is_half(&self) -> (yes: bool)
        ensures
            yes == self.setup().fp16,
    {
        self.fp16
    }

    /// The shape of a frame, and of the plate.
    pub fn frame_shape(&self) -> (shape: [i64; 4])
        ensures
            shape@ == seq![1i64, 3i64, self.setup().height as i64, self.setup().width as i64],
    {
        let shape = [1i64, 3i64, self.height as i64, self.width as i64];
        assert(shape@ =~= seq![1i64, 3i64, self.height as i64, self.width as i64]);
        shape
    }

    /// The shape of the state of a level.
    pub fn state_shape(&self, level: usize) -> (shape: &[i64])
        requires
            self.well_formed(),
            1 <= level <= 4,
        ensures
            shape@ == self.setup().state_shapes[level - 1],
    {
        self.state_shapes[level - 1].as_slice()
    }

    /// How many zeros make up the state of a level before the first frame and
    /// after a reset. Nothing where the declared shape has no such number.
    pub fn zero_len(&self, level: usize) -> (len: Option<usize>)
        requires
            self.well_formed(),
            1 <= level <= 4,
        ensures
            match len {
                Some(n) => is_countable(self.setup().state_shapes[level - 1]) && n
                    == element_count(self.setup().state_shapes[level - 1]),
                None => !is_countable(self.setup().state_shapes[level - 1]),
            },
    {
        count_elements(self.state_shape(level))
    }

    pub fn plate(&self) -> (plate: &[Single])
        ensures
            plate@ == self.plate_values(),
    {
        self.plate.as_slice()
    }

    /// Supply BackgroundMattingV2's background plate: the empty scene, in the
    /// same NCHW normalized layout as a frame. Converted once, reused per frame.
    pub fn set_background(&mut self, rgb_nchw: &[Single]) -> (done: Result<(), MattingError>)
        requires
            old(self).well_formed(),
        ensures
            final(self).well_formed(),
            final(self).setup() == old(self).setup(),
            final(self).memory() == old(self).memory(),
            final(self).matte() == old(self).matte(),
            ({
                let expected = 3 * (old(self).setup().width * old(self).setup().height);
                match done {
                    Ok(_) => rgb_nchw@.len() == expected && final(self).plate_values()
                        == rgb_nchw@,
                    Err(e) => rgb_nchw@.len() != expected && final(self).plate_values() == old(self).plate_values() && e == (MattingError::PlateLength {
                        given: rgb_nchw@.len() as usize,
                        expected: expected as usize,
                    }),
                }
            }),
    {
        let expected = (self.width * self.height) as usize * 3;
        if rgb_nchw.len() != expected {
            return Err(MattingError::PlateLength { given: rgb_nchw.len(), expected });
        }
        self.plate = vstd::slice::slice_to_vec(rgb_nchw);
        Ok(())
    }

    /// Drop the temporal memory. Call on stream reconnect so a new scene does
    /// not inherit the previous one's alpha.
    pub fn reset_state(&mut self) -> (done: Result<(), MattingError>)
        ensures
            done is Ok,
            was_reset(*old(self), *final(self)),
    {
        self.state = None;
        Ok(())
    }

    /// Whether temporal memory from a previous frame is being carried.
    pub fn has_state(&self) -> (yes: bool)
        ensures
            yes == (self.memory() is Some),
    {
        self.state.is_some()
    }

    /// What to run the network on. RVM gets the temporal memory, which is gone
    /// from here until the reply brings the next one. BackgroundMattingV2
    /// compares each frame against a fixed background plate and is refused
    /// without one; it has no temporal memory.
    pub fn begin(&mut self) -> (request: Result<Request<T>, MattingError>)
        ensures
            has_begun(*old(self), *final(self), request),
            old(self).setup().arch == Arch::Rvm ==> final(self).memory() is None && (
            request matches Ok(Request::Rvm { state }) && state == old(self).memory()),
            old(self).setup().arch == Arch::Bgmv2 ==> final(self).memory() == old(self).memory()
                && (request matches Ok(Request::Bgmv2)) == (old(self).plate_values().len() > 0)
                && (request is Err) == (old(self).plate_values().len() == 0),
    {
        match self.arch {
            Arch::Rvm => Ok(Request::Rvm { state: self.state.take() }),
            Arch::Bgmv2 => {
                if self.plate.len() == 0 {
                    Err(MattingError::NeedsPlate)
                } else {
                    Ok(Request::Bgmv2)
                }
            },
        }
    }

    /// Takes over foreground and alpha. What a binary16 model gave is cut or
    /// left over where it does not fit; what a binary32 model gave has to fit.
    fn keep_matte(&mut self, fgr: &[Single], pha: &[Single])
        requires
            old(self).well_formed(),
            !old(self).setup().fp16 ==> fgr@.len() == old(self).matte().0.len() && pha@.len()
                == old(self).matte().1.len(),
        ensures
            final(self).well_formed(),
            final(self).setup() == old(self).setup(),
            final(self).plate_values() == old(self).plate_values(),
            final(self).memory() == old(self).memory(),
            final(self).matte() == (
                overwritten(old(self).matte().0, fgr@),
                overwritten(old(self).matte().1, pha@),
            ),
    {
        overwrite(&mut self.fgr, fgr);
        overwrite(&mut self.pha, pha);
    }

    /// Takes the reply of BackgroundMattingV2.
    pub fn finish_bgmv2(&mut self, fgr: &[Single], pha: &[Single])
        requires
            old(self).well_formed(),
            !old(self).setup().fp16 ==> fgr@.len() == old(self).matte().0.len() && pha@.len()
                == old(self).matte().1.len(),
        ensures
            final(self).well_formed(),
            final(self).setup() == old(self).setup(),
            final(self).plate_values() == old(self).plate_values(),
            final(self).memory() == old(self).memory(),
            final(self).matte() == (
                overwritten(old(self).matte().0, fgr@),
                overwritten(old(self).matte().1, pha@),
            ),
            fgr@.len() == old(self).matte().0.len() ==> final(self).matte().0 == fgr@,
            pha@.len() == old(self).matte().1.len() ==> final(self).matte().1 == pha@,
    {
        proof {
            law_reply_is_kept(old(self).matte().0, fgr@);
            law_reply_is_kept(old(self).matte().1, pha@);
        }
        self.keep_matte(fgr, pha);
    }

    /// Takes the reply of RVM, and carries its states to the next frame. Where
    /// one is missing there is no memory to carry.
    pub fn finish_rvm(
        &mut self,
        fgr: &[Single],
        pha: &[Single],
        states: States<Option<T>>,
    ) -> (done: Result<(), MattingError>)
        requires
            old(self).well_formed(),
            !old(self).setup().fp16 ==> fgr@.len() == old(self).matte().0.len() && pha@.len()
                == old(self).matte().1.len(),
        ensures
            final(self).well_formed(),
            has_finished(*old(self), *final(self), fgr@, pha@, states, done),
            done is Ok <==> states.r1 is Some && states.r2 is Some && states.r3 is Some
                && states.r4 is Some,
            done is Ok ==> (final(self).memory() matches Some(s) && Some(s.r1) == states.r1 && Some(
                s.r2,
            ) == states.r2 && Some(s.r3) == states.r3 && Some(s.r4) == states.r4),
            done is Err ==> final(self).memory() == old(self).memory(),
            fgr@.len() == old(self).matte().0.len() ==> final(self).matte().0 == fgr@,
            pha@.len() == old(self).matte().1.len() ==> final(self).matte().1 == pha@,
    {
        proof {
            law_reply_is_kept(old(self).matte().0, fgr@);
            law_reply_is_kept(old(self).matte().1, pha@);
        }
        self.keep_matte(fgr, pha);
        match (states.r1, states.r2, states.r3, states.r4) {
            (Some(r1), Some(r2), Some(r3), Some(r4)) => {
                self.state = Some(States { r1, r2, r3, r4 });
                Ok(())
            },
            (None, _, _, _) => Err(MattingError::MissingState { level: 1 }),
            (_, None, _, _) => Err(MattingError::MissingState { level: 2 }),
            (_, _, None, _) => Err(MattingError::MissingState { level: 3 }),
            (_, _, _, None) => Err(MattingError::MissingState { level: 4 }),
        }
    }

    /// The last foreground.
    pub fn fgr(&self) -> (fgr: &[Single])
        ensures
            fgr@ == self.matte().0,
    {
        self.fgr.as_slice()
    }

    /// The last alpha.
    pub fn pha(&self) -> (pha: &[Single])
        ensures
            pha@ == self.matte().1,
    {
        self.pha.as_slice()
    }
}

/// Whether an input is the first one of a name.
pub open spec fn is_first(inputs: Seq<InputInfo>, i: int, name: Seq<char>) -> bool {
    &&& 0 <= i < inputs.len()
    &&& inputs[i].name@ == name
    &&& forall|j: int| 0 <= j < i ==> (#[trigger] inputs[j]).name@ != name
}

proof fn lemma_input_at(inputs: Seq<InputInfo>, name: Seq<char>)
    ensures
        0 <= input_at(inputs, name) <= inputs.len(),
        input_at(inputs, name) < inputs.len() ==> inputs[input_at(inputs, name)].name@ == name,
        forall|j: int| 0 <= j < input_at(inputs, name) ==> (#[trigger] inputs[j]).name@ != name,
    decreases inputs.len(),
{
    if inputs.len() > 0 && inputs[0].name@ != name {
        let rest = inputs.subrange(1, inputs.len() as int);
        lemma_input_at(rest, name);
        assert forall|j: int| 0 <= j < input_at(inputs, name) implies (
        #[trigger] inputs[j]).name@ != name by {
            if j > 0 {
                assert(rest[j - 1].name@ != name);
            }
        }
    }
}

proof fn lemma_first(inputs: Seq<InputInfo>, i: int, name: Seq<char>)
    requires
        is_first(inputs, i, name),
    ensures
        input_at(inputs, name) == i,
{
    lemma_input_at(inputs, name);
    let at = input_at(inputs, name);
    if at < i {
        assert(inputs[at].name@ != name);
    }
}

/// A model is BackgroundMattingV2 exactly where an input is named `bgr`. It is
/// in binary16 exactly where its first input named `src` is.
pub proof fn law_loaded_setup(inputs: Seq<InputInfo>, width: u32, height: u32)
    requires
        load_accepts(inputs),
    ensures
        setup_for(inputs, width, height).arch == Arch::Bgmv2 <==> exists|i: int|
            0 <= i < inputs.len() && (#[trigger] inputs[i]).name@ == "bgr"@,
        exists|i: int| is_first(inputs, i, "src"@),
        forall|i: int|
            is_first(inputs, i, "src"@) ==> ((#[trigger] inputs[i]).tensor matches Some(t)
                && setup_for(inputs, width, height).fp16 == (t.element is Float16) && !(
            t.element is Other)),
{
    lemma_input_at(inputs, "bgr"@);
    lemma_input_at(inputs, "src"@);
    let bgr = input_at(inputs, "bgr"@);
    if bgr < inputs.len() {
        assert(inputs[bgr].name@ == "bgr"@);
    }
    let at = input_at(inputs, "src"@);
    assert(is_first(inputs, at, "src"@));
    assert forall|i: int| is_first(inputs, i, "src"@) implies ((
    #[trigger] inputs[i]).tensor matches Some(t) && setup_for(inputs, width, height).fp16 == (
    t.element is Float16) && !(t.element is Other)) by {
        lemma_first(inputs, i, "src"@);
    }
}

/// The state shapes of an RVM model are those of its inputs `r1i` to `r4i`, and
/// all of these are there.
pub proof fn law_loaded_state_shape(
    inputs: Seq<InputInfo>,
    width: u32,
    height: u32,
    level: int,
    i: int,
)
    requires
        load_accepts(inputs),
        forall|j: int| 0 <= j < inputs.len() ==> (#[trigger] inputs[j]).name@ != "bgr"@,
        1 <= level <= 4,
        is_first(
            inputs,
            i,
            if level == 1 {
                "r1i"@
            } else if level == 2 {
                "r2i"@
            } else if level == 3 {
                "r3i"@
            } else {
                "r4i"@
            },
        ),
    ensures
        setup_for(inputs, width, height).state_shapes.len() == 4,
        inputs[i].tensor matches Some(t) && setup_for(inputs, width, height).state_shapes[level - 1]
            == t.shape@,
{
    lemma_state_names(level);
    lemma_first(inputs, i, state_name(level));
    lemma_input_at(inputs, "bgr"@);
    assert(detected(inputs) == Arch::Rvm);
    assert(state_fault(inputs, level as u8) is None);
}

proof fn lemma_state_names(level: int)
    requires
        1 <= level <= 4,
    ensures
        state_name(level) == if level == 1 {
            "r1i"@
        } else if level == 2 {
            "r2i"@
        } else if level == 3 {
            "r3i"@
        } else {
            "r4i"@
        },
{
    reveal_strlit("r");
    reveal_strlit("i");
    reveal_strlit("r1i");
    reveal_strlit("r2i");
    reveal_strlit("r3i");
    reveal_strlit("r4i");
    assert(text::digits(level as nat) =~= seq![text::digit_char(level as nat)]);
    let digit = text::digit_char(level as nat);
    assert(state_name(level) =~= seq!['r', digit, 'i']);
    assert(text::digit_char(1) == '1' && text::digit_char(2) == '2');
    assert(text::digit_char(3) == '3' && text::digit_char(4) == '4');
    assert("r1i"@ =~= seq!['r', '1', 'i']);
    assert("r2i"@ =~= seq!['r', '2', 'i']);
    assert("r3i"@ =~= seq!['r', '3', 'i']);
    assert("r4i"@ =~= seq!['r', '4', 'i']);
}

/// A tensor of four dimensions has as many elements as their product says, and
/// one more dimension multiplies the count.
pub proof fn law_element_count(shape: Seq<i64>, a: i64, b: i64, c: i64, d: i64)
    ensures
        element_count(seq![a, b, c, d]) == a * b * c * d,
        element_count(shape.push(a)) == element_count(shape) * a,
        element_count(Seq::<i64>::empty()) == 1,
{
    reveal_with_fuel(element_count, 6);
    assert(shape.push(a).drop_last() =~= shape);
    let s = seq![a, b, c, d];
    assert(s.drop_last() =~= seq![a, b, c]);
    assert(s.drop_last().drop_last() =~= seq![a, b]);
    assert(s.drop_last().drop_last().drop_last() =~= seq![a]);
    assert(s.drop_last().drop_last().drop_last().drop_last() =~= Seq::<i64>::empty());
    assert(1 * a == a);
}

/// A reply that fills the buffer takes its place as it is. One that does not
/// goes in from the start: as much of it as fits, and the rest stays.
pub proof fn law_reply_is_kept(current: Seq<Single>, new: Seq<Single>)
    ensures
        new.len() == current.len() ==> overwritten(current, new) == new,
        new.len() > current.len() ==> overwritten(current, new) == new.subrange(
            0,
            current.len() as int,
        ),
        new.len() < current.len() ==> overwritten(current, new) == new + current.subrange(
            new.len() as int,
            current.len() as int,
        ),
{
    if new.len() == current.len() {
        assert(overwritten(current, new) =~= new);
    } else if new.len() > current.len() {
        assert(overwritten(current, new) =~= new.subrange(0, current.len() as int));
    } else {
        assert(overwritten(current, new) =~= new + current.subrange(
            new.len() as int,
            current.len() as int,
        ));
    }
}

/// What `reset_state` does.
pub open spec fn was_reset<T>(before: Matting<T>, after: Matting<T>) -> bool {
    &&& after.memory() is None
    &&& after.setup() == before.setup()
    &&& after.plate_values() == before.plate_values()
    &&& after.matte() == before.matte()
}

/// What `begin` does.
pub open spec fn has_begun<T>(
    before: Matting<T>,
    after: Matting<T>,
    request: Result<Request<T>, MattingError>,
) -> bool {
    &&& after.setup() == before.setup()
    &&& after.plate_values() == before.plate_values()
    &&& after.matte() == before.matte()
    &&& match (before.setup().arch, request) {
        (Arch::Rvm, Ok(Request::Rvm { state })) => state == before.memory() && after.memory()
            is None,
        (Arch::Bgmv2, Ok(Request::Bgmv2)) => before.plate_values().len() > 0 && after.memory()
            == before.memory(),
        (Arch::Bgmv2, Err(e)) => before.plate_values().len() == 0 && e == MattingError::NeedsPlate
            && after.memory() == before.memory(),
        _ => false,
    }
}

/// What `finish_rvm` does.
pub open spec fn has_finished<T>(
    before: Matting<T>,
    after: Matting<T>,
    fgr: Seq<Single>,
    pha: Seq<Single>,
    states: States<Option<T>>,
    done: Result<(), MattingError>,
) -> bool {
    &&& after.setup() == before.setup()
    &&& after.plate_values() == before.plate_values()
    &&& after.matte() == (
        overwritten(before.matte().0, fgr),
        overwritten(before.matte().1, pha),
    )
    &&& match (states.r1, states.r2, states.r3, states.r4) {
        (Some(r1), Some(r2), Some(r3), Some(r4)) => done is Ok && after.memory() == Some(
            States { r1, r2, r3, r4 },
        ),
        _ => after.memory() == before.memory() && done == Err::<(), MattingError>(
            MattingError::MissingState { level: first_missing(states) },
        ),
    }
}

/// A frame leaves temporal memory behind: the next frame is matted with the
/// states that this one gave.
pub proof fn law_memory_is_carried<T>(
    before: Matting<T>,
    between: Matting<T>,
    after: Matting<T>,
    fgr: Seq<Single>,
    pha: Seq<Single>,
    states: States<T>,
    done: Result<(), MattingError>,
    request: Result<Request<T>, MattingError>,
)
    requires
        before.setup().arch == Arch::Rvm,
        has_finished(
            before,
            between,
            fgr,
            pha,
            (States {
                r1: Some(states.r1),
                r2: Some(states.r2),
                r3: Some(states.r3),
                r4: Some(states.r4),
            }),
            done,
        ),
        has_begun(between, after, request),
    ensures
        done is Ok,
        between.memory() is Some,
        request matches Ok(Request::Rvm { state: Some(s) }) && s == states,
{
}

/// After a reset the network is asked for just what it is asked for when it has
/// never seen a frame: nothing of the earlier scene gets through.
pub proof fn law_reset_starts_over<T>(
    used: Matting<T>,
    reset: Matting<T>,
    after: Matting<T>,
    request: Result<Request<T>, MattingError>,
    fresh: Matting<T>,
    fresh_after: Matting<T>,
    fresh_request: Result<Request<T>, MattingError>,
)
    requires
        used.setup().arch == Arch::Rvm,
        was_reset(used, reset),
        has_begun(reset, after, request),
        fresh.setup() == used.setup(),
        fresh.memory() is None,
        has_begun(fresh, fresh_after, fresh_request),
    ensures
        request == fresh_request,
        request matches Ok(Request::Rvm { state: None }),
{
}

/// What the network gives for a frame: foreground, alpha and states.
pub struct Reply<T> {
    pub fgr: Seq<Single>,
    pub pha: Seq<Single>,
    pub states: States<T>,
}

/// Whether matting a frame leads from `before` to `after`, where `network` says
/// what RVM gives for a frame and the states that it is run on.
pub open spec fn is_matted<T>(
    network: spec_fn(Seq<Single>, Option<States<T>>) -> Reply<T>,
    frame: Seq<Single>,
    before: Matting<T>,
    after: Matting<T>,
) -> bool {
    let reply = network(frame, before.memory());
    let states = States {
        r1: Some(reply.states.r1),
        r2: Some(reply.states.r2),
        r3: Some(reply.states.r3),
        r4: Some(reply.states.r4),
    };
    exists|between: Matting<T>|
        #[trigger] has_begun(
            before,
            between,
            Ok::<Request<T>, MattingError>(Request::Rvm { state: before.memory() }),
        ) && has_finished(between, after, reply.fgr, reply.pha, states, Ok::<(), MattingError>(()))
}

/// Whether matting some frames, one after the other, leads from `before` to
/// `after`.
pub open spec fn are_matted<T>(
    network: spec_fn(Seq<Single>, Option<States<T>>) -> Reply<T>,
    frames: Seq<Seq<Single>>,
    before: Matting<T>,
    after: Matting<T>,
) -> bool
    decreases frames.len(),
{
    if frames.len() == 0 {
        after == before
    } else {
        exists|between: Matting<T>|
            are_matted(network, frames.drop_last(), before, between) && #[trigger] is_matted(
                network,
                frames.last(),
                between,
                after,
            )
    }
}

proof fn lemma_matted<T>(
    network: spec_fn(Seq<Single>, Option<States<T>>) -> Reply<T>,
    frames: Seq<Seq<Single>>,
    before: Matting<T>,
    after: Matting<T>,
)
    requires
        are_matted(network, frames, before, after),
    ensures
        after.setup() == before.setup(),
        before.well_formed() ==> after.well_formed(),
    decreases frames.len(),
{
    if frames.len() > 0 {
        let between = choose|between: Matting<T>|
            are_matted(network, frames.drop_last(), before, between) && #[trigger] is_matted(
                network,
                frames.last(),
                between,
                after,
            );
        lemma_matted(network, frames.drop_last(), before, between);
    }
}

/// After a reset nothing of the earlier frames is left: a frame that was the
/// first one of all, matted again after any others and a reset, gives the same
/// foreground, the same alpha and the same temporal memory as it did then.
pub proof fn law_reset_gives_the_first_alpha<T>(
    network: spec_fn(Seq<Single>, Option<States<T>>) -> Reply<T>,
    frame: Seq<Single>,
    others: Seq<Seq<Single>>,
    fresh: Matting<T>,
    first: Matting<T>,
    used: Matting<T>,
    reset: Matting<T>,
    again: Matting<T>,
)
    requires
        fresh.well_formed(),
        fresh.setup().arch == Arch::Rvm,
        fresh.memory() is None,
        network(frame, None).fgr.len() == fresh.matte().0.len(),
        network(frame, None).pha.len() == fresh.matte().1.len(),
        is_matted(network, frame, fresh, first),
        are_matted(network, others, first, used),
        was_reset(used, reset),
        is_matted(network, frame, reset, again),
    ensures
        again.matte() == first.matte(),
        again.memory() == first.memory(),
        first.memory() is Some,
{
    lemma_matted(network, others, first, used);
    let reply = network(frame, None);
    assert(first.matte().0 =~= reply.fgr);
    assert(first.matte().1 =~= reply.pha);
    assert(again.matte().0 =~= reply.fgr);
    assert(again.matte().1 =~= reply.pha);
}

/// A run of the network that fails loses the temporal memory: the next frame
/// starts from zeros.
pub proof fn law_failed_run_starts_over<T>(
    before: Matting<T>,
    between: Matting<T>,
    after: Matting<T>,
    request: Result<Request<T>, MattingError>,
    next: Result<Request<T>, MattingError>,
)
    requires
        before.setup().arch == Arch::Rvm,
        has_begun(before, between, request),
        has_begun(between, after, next),
    ensures
        next matches Ok(Request::Rvm { state: None }),
{
}

/// The first level whose state is not there.
pub open spec fn first_missing<T>(states: States<Option<T>>) -> u8 {
    if states.r1 is None {
        1
    } else if states.r2 is None {
        2
    } else if states.r3 is None {
        3
    } else {
        4
    }
}

/// A model is refused for what it lacks: an RVM model that has no state input
/// of some level, or one that is no tensor; a model that has no `src`, or one
/// that is no tensor, or one that holds other numbers than binary32 or binary16.
pub proof fn law_load_refusal(inputs: Seq<InputInfo>, error: LoadError)
    requires
        load_refuses(inputs, error),
    ensures
        !load_accepts(inputs),
        match error {
            LoadError::NoState { level } => {
                &&& 1 <= level <= 4
                &&& forall|i: int| 0 <= i < inputs.len() ==> (#[trigger] inputs[i]).name@ != "bgr"@
                &&& forall|i: int|
                    0 <= i < inputs.len() ==> (#[trigger] inputs[i]).name@ != if level == 1 {
                        "r1i"@
                    } else if level == 2 {
                        "r2i"@
                    } else if level == 3 {
                        "r3i"@
                    } else {
                        "r4i"@
                    }
            },
            LoadError::StateNotTensor { level } => {
                &&& 1 <= level <= 4
                &&& forall|i: int| 0 <= i < inputs.len() ==> (#[trigger] inputs[i]).name@ != "bgr"@
                &&& forall|i: int|
                    is_first(
                        inputs,
                        i,
                        if level == 1 {
                            "r1i"@
                        } else if level == 2 {
                            "r2i"@
                        } else if level == 3 {
                            "r3i"@
                        } else {
                            "r4i"@
                        },
                    ) ==> (#[trigger] inputs[i]).tensor is None
            },
            LoadError::NoSrc => forall|i: int|
                0 <= i < inputs.len() ==> (#[trigger] inputs[i]).name@ != "src"@,
            LoadError::SrcNotTensor => forall|i: int|
                is_first(inputs, i, "src"@) ==> (#[trigger] inputs[i]).tensor is None,
            LoadError::Element { name } => forall|i: int|
                is_first(inputs, i, "src"@) ==> ((#[trigger] inputs[i]).tensor matches Some(t)
                    && t.element matches Element::Other { name: n } && n@ == name@),
        },
{
    lemma_input_at(inputs, "bgr"@);
    lemma_input_at(inputs, "src"@);
    assert forall|i: int| is_first(inputs, i, "src"@) implies input_at(inputs, "src"@) == i by {
        lemma_first(inputs, i, "src"@);
    }
    match error {
        LoadError::NoState { level } => {
            lemma_state_names(level as int);
            lemma_input_at(inputs, state_name(level as int));
        },
        LoadError::StateNotTensor { level } => {
            lemma_state_names(level as int);
            let name = state_name(level as int);
            assert forall|i: int| is_first(inputs, i, name) implies (
            #[trigger] inputs[i]).tensor is None by {
                lemma_first(inputs, i, name);
            }
        },
        _ => {},
    }
}

} // verus!
