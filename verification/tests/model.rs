use matting::model::{
    Arch, Element, InputInfo, LoadError, Matting, MattingError, Request, States, TensorInfo,
};
use matting::single::Single;

fn tensor(name: &str, element: Element, shape: &[i64]) -> InputInfo {
    InputInfo {
        name: name.to_string(),
        tensor: Some(TensorInfo { element, shape: shape.to_vec() }),
    }
}

fn rvm(half: bool) -> Vec<InputInfo> {
    let element = || if half { Element::Float16 } else { Element::Float32 };
    let mut inputs = vec![tensor("src", element(), &[1, 3, 1, 2])];
    for level in 1..=4 {
        inputs.push(tensor(&format!("r{level}i"), element(), &[1, 2, level, 3]));
    }
    inputs
}

fn bgmv2() -> Vec<InputInfo> {
    vec![
        tensor("src", Element::Float32, &[1, 3, 1, 2]),
        tensor("bgr", Element::Float32, &[1, 3, 1, 2]),
    ]
}

fn load(inputs: Vec<InputInfo>) -> Matting<u32> {
    Matting::load(&inputs, 2, 1).unwrap()
}

fn singles(values: &[f32]) -> Vec<Single> {
    values.iter().map(|v| Single::from_bits(v.to_bits())).collect()
}

fn states(first: u32) -> States<Option<u32>> {
    States { r1: Some(first), r2: Some(first + 1), r3: Some(first + 2), r4: Some(first + 3) }
}

/// The state that a frame is matted with.
fn begin(m: &mut Matting<u32>) -> Option<[u32; 4]> {
    match m.begin().unwrap() {
        Request::Rvm { state } => state.map(|s| [s.r1, s.r2, s.r3, s.r4]),
        Request::Bgmv2 => panic!("expected RVM"),
    }
}

fn finish(m: &mut Matting<u32>, first: u32) -> Result<(), MattingError> {
    m.finish_rvm(&singles(&[0.25; 6]), &singles(&[0.5; 2]), states(first))
}

#[test]
fn state_persists_across_frames_and_resets() {
    let mut m = load(rvm(false));
    assert!(!m.has_state(), "should start with no temporal memory");
    let first = begin(&mut m);
    finish(&mut m, 10).unwrap();
    assert!(m.has_state(), "a frame should leave temporal memory behind");

    let second = begin(&mut m);
    finish(&mut m, 20).unwrap();
    assert!(m.has_state(), "memory should persist across frames");

    m.reset_state().unwrap();
    assert!(!m.has_state(), "reset_state must clear temporal memory");

    let after_reset = begin(&mut m);
    assert_eq!(first, after_reset, "reset_state should reproduce the first frame");
    assert_ne!(first, second, "recurrent state should change the second result");
    assert_eq!(second, Some([10, 11, 12, 13]));
}

#[test]
fn a_failed_run_loses_the_memory() {
    let mut m = load(rvm(false));
    begin(&mut m);
    finish(&mut m, 10).unwrap();
    assert_eq!(begin(&mut m), Some([10, 11, 12, 13]));
    assert_eq!(begin(&mut m), None);
}

#[test]
fn the_architecture_shows_in_the_inputs() {
    assert_eq!(load(rvm(false)).arch(), Arch::Rvm);
    assert_eq!(load(bgmv2()).arch(), Arch::Bgmv2);
    assert!(load(rvm(true)).is_half());
    assert!(!load(rvm(false)).is_half());
    assert_eq!(load(rvm(false)).frame_shape(), [1, 3, 1, 2]);
}

#[test]
fn states_have_the_declared_shapes() {
    let m = load(rvm(false));
    for level in 1..=4 {
        assert_eq!(m.state_shape(level), [1, 2, level as i64, 3]);
        assert_eq!(m.zero_len(level), Some(6 * level));
    }
    assert_eq!(load(bgmv2()).state_shape(2), [0i64; 0]);
    let odd = |shape: &[i64]| {
        let mut inputs = rvm(false);
        inputs[1] = tensor("r1i", Element::Float32, shape);
        load(inputs).zero_len(1)
    };
    assert_eq!(odd(&[1, -1, 5, 5]), None);
    assert_eq!(odd(&[-1, -1]), Some(1));
    assert_eq!(odd(&[i64::MAX, 2]), None);
    assert_eq!(odd(&[i64::MAX, 2, 0]), None);
    assert_eq!(odd(&[0, i64::MAX, 2]), Some(0));
    assert_eq!(odd(&[]), Some(1));
}

fn load_fault(inputs: Vec<InputInfo>) -> LoadError {
    Matting::<u32>::load(&inputs, 2, 1).unwrap_err()
}

#[test]
fn unusable_models_are_refused() {
    let mut inputs = rvm(false);
    inputs.remove(3);
    assert_eq!(load_fault(inputs).message(), "frozen model has no input r3i");
    let mut inputs = rvm(false);
    inputs[4].tensor = None;
    assert_eq!(load_fault(inputs).message(), "r4i is not a tensor");
    let mut inputs = rvm(false);
    inputs.remove(0);
    assert_eq!(load_fault(inputs).message(), "frozen model has no `src` input");
    let mut inputs = bgmv2();
    inputs[0].tensor = None;
    assert_eq!(load_fault(inputs).message(), "`src` is not a tensor");
    let mut inputs = bgmv2();
    inputs[0] = tensor("src", Element::Other { name: "Uint8".to_string() }, &[1]);
    assert_eq!(
        load_fault(inputs).message(),
        "unsupported `src` element type Uint8; use an fp32 or fp16 RVM export"
    );
}

#[test]
fn a_missing_state_is_named() {
    let mut m = load(rvm(false));
    let reply = |m: &mut Matting<u32>, states| {
        m.finish_rvm(&singles(&[0.25; 6]), &singles(&[0.5; 2]), states)
    };
    let error = reply(&mut m, States { r3: None, r4: None, ..states(1) }).unwrap_err();
    assert_eq!(error, MattingError::MissingState { level: 3 });
    assert_eq!(error.message(), "missing r3o");
    assert!(!m.has_state());
    // The matte is taken over all the same.
    assert_eq!(m.pha(), singles(&[0.5; 2]));
    for (level, states) in [
        (1, States { r1: None, ..states(1) }),
        (2, States { r2: None, ..states(1) }),
        (4, States { r4: None, ..states(1) }),
    ] {
        assert_eq!(reply(&mut m, states), Err(MattingError::MissingState { level }));
    }
}

#[test]
fn background_matting_needs_a_plate() {
    let mut m = load(bgmv2());
    let error = m.begin().unwrap_err();
    assert_eq!(error, MattingError::NeedsPlate);
    assert_eq!(
        error.message(),
        "this model is BackgroundMattingV2 and needs a background plate; \
         pass --plate <image> (capture one with `matting capture-plate`)"
    );
    let error = m.set_background(&singles(&[0.0; 5])).unwrap_err();
    assert_eq!(error.message(), "background plate has 5 values, expected 6");
    m.set_background(&singles(&[0.75; 6])).unwrap();
    assert_eq!(m.plate(), singles(&[0.75; 6]));
    assert!(matches!(m.begin(), Ok(Request::Bgmv2)));
    m.finish_bgmv2(&singles(&[0.25; 6]), &singles(&[1.0, 0.0]));
    assert_eq!(m.fgr(), singles(&[0.25; 6]));
    assert_eq!(m.pha(), singles(&[1.0, 0.0]));
    assert!(!m.has_state());
}

#[test]
fn binary16_replies_fill_what_they_can() {
    let mut m = load(rvm(true));
    m.finish_rvm(&singles(&[0.5; 2]), &singles(&[0.25; 9]), states(1)).unwrap();
    assert_eq!(m.fgr(), singles(&[0.5, 0.5, 0.0, 0.0, 0.0, 0.0]));
    assert_eq!(m.pha(), singles(&[0.25, 0.25]));
}

#[test]
fn a_loaded_model_starts_from_zeros() {
    let m = load(rvm(false));
    assert!(m.fgr().iter().chain(m.pha()).all(|v| v.to_bits() == 0));
    assert_eq!((m.fgr().len(), m.pha().len()), (6, 2));
}
