use matting::cli::Backbone;
use matting::manifest::{Field, Manifest};
use matting::prepare::needed_manifest;
use matting::single::Single;

fn single(value: f32) -> Single {
    Single::from_bits(value.to_bits())
}

fn sample() -> Manifest {
    Manifest {
        source_sha256: "abc123".into(),
        backbone: "resnet50".into(),
        width: 1024,
        height: 576,
        ratio: single(0.5),
        gpu_arch: "gfx1151".into(),
        rocm_version: "7.2.4".into(),
    }
}

/// What the user is told, with the ratios written as numbers are.
fn report(cached: &Manifest, needed: &Manifest) -> String {
    let shown = |m: &Manifest| f32::from_bits(m.ratio.to_bits()).to_string();
    let stale = cached.check_matches(needed).unwrap_err();
    stale.message(cached, needed, &shown(cached), &shown(needed))
}

#[test]
fn matching_manifests_pass() {
    assert!(sample().check_matches(&sample()).is_ok());
}

#[test]
fn resolution_mismatch_is_reported() {
    let mut other = sample();
    other.width = 1280;
    let err = report(&sample(), &other);
    assert!(err.contains("width"), "error should name the field: {err}");
}

#[test]
fn gpu_arch_mismatch_is_reported() {
    let mut other = sample();
    other.gpu_arch = "gfx1100".into();
    let err = report(&sample(), &other);
    assert!(err.contains("gpu_arch"), "error should name the field: {err}");
}

#[test]
fn all_differences_are_reported_in_order() {
    let other = Manifest {
        source_sha256: "def".into(),
        backbone: "mobilenetv3".into(),
        width: 1280,
        height: 720,
        ratio: single(0.25),
        gpu_arch: "gfx1100".into(),
        rocm_version: "6.0".into(),
    };
    assert_eq!(
        report(&sample(), &other),
        "prepared model is stale, re-run `matting prepare`:\n  \
         source_sha256: cached \"abc123\" but need \"def\"\n  \
         backbone: cached \"resnet50\" but need \"mobilenetv3\"\n  \
         width: cached 1024 but need 1280\n  \
         height: cached 576 but need 720\n  \
         gpu_arch: cached \"gfx1151\" but need \"gfx1100\"\n  \
         rocm_version: cached \"7.2.4\" but need \"6.0\"\n  \
         ratio: cached 0.5 but need 0.25"
    );
}

#[test]
fn ratios_are_compared_with_a_tolerance() {
    let differ = |a: f32, b: f32| {
        let (mut x, mut y) = (sample(), sample());
        x.ratio = single(a);
        y.ratio = single(b);
        match x.check_matches(&y) {
            Ok(()) => false,
            Err(stale) => {
                assert_eq!(stale.fields, vec![Field::Ratio]);
                true
            }
        }
    };
    assert!(!differ(0.5, 0.5 + f32::EPSILON / 2.0));
    assert!(!differ(1.0, 1.0 + f32::EPSILON));
    assert!(differ(1.0, 1.0 + 2.0 * f32::EPSILON));
    assert!(differ(0.5, -0.5));
    assert!(!differ(f32::NAN, 0.5));
    assert!(differ(f32::INFINITY, 0.5));
}

#[test]
fn a_run_is_refused_when_its_setup_changed() {
    let cached = sample();
    let need = |backbone, gpu: &str, rocm: &str| {
        needed_manifest(&cached, backbone, gpu.to_string(), rocm.to_string())
    };
    let same = need(Backbone::Resnet50, "gfx1151", "7.2.4");
    assert_eq!(same, cached);
    assert!(cached.check_matches(&same).is_ok());
    let stale = |m: &Manifest| cached.check_matches(m).unwrap_err().fields;
    assert_eq!(stale(&need(Backbone::Mobilenetv3, "gfx1151", "7.2.4")), [Field::Backbone]);
    assert_eq!(stale(&need(Backbone::Resnet50, "unknown", "7.2.4")), [Field::GpuArch]);
    assert_eq!(stale(&need(Backbone::Resnet50, "gfx1151", "7.2.5")), [Field::RocmVersion]);
}

#[test]
fn manifests_are_compared_as_their_numbers_are() {
    let with = |ratio| Manifest { ratio: single(ratio), ..sample() };
    assert_eq!(with(0.0), with(-0.0));
    assert_ne!(with(f32::NAN), with(f32::NAN));
    assert_ne!(with(0.5), with(0.25));
}
