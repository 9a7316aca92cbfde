use matting::cli::Backbone;
use matting::prepare::{
    build_manifest, cache_dir, frozen_model_path, gpu_arch, mxr_dir, rocm_version,
};
use matting::single::Single;

#[test]
fn caches_are_kept_where_the_environment_says() {
    let dir = |xdg: Option<&str>, home: Option<&str>| {
        let dir = cache_dir(xdg.map(str::as_bytes), home.map(str::as_bytes));
        String::from_utf8(dir).unwrap()
    };
    assert_eq!(dir(Some("/xdg"), Some("/home/me")), "/xdg/matting");
    assert_eq!(dir(Some("/xdg/"), None), "/xdg/matting");
    assert_eq!(dir(Some(""), None), "matting");
    assert_eq!(dir(None, Some("/home/me")), "/home/me/.cache/matting");
    assert_eq!(dir(None, Some("/")), "/.cache/matting");
}

#[test]
fn paths_are_joined_as_paths_are() {
    for dir in ["", "/", "a", "a/", "/tmp/x y", "/tmp//"] {
        let path = std::path::Path::new(dir);
        let joined = |name: &str| path.join(name).to_str().unwrap().as_bytes().to_vec();
        assert_eq!(frozen_model_path(dir.as_bytes()), joined("model_frozen.onnx"));
        assert_eq!(mxr_dir(dir.as_bytes()), joined("mxr"));
    }
}

#[test]
fn the_gpu_is_found_in_the_report() {
    let report = "*******\r\nAgent 1\n  Name:                    AMD Ryzen\n  \
                  Marketing Name: gfx-like\n  Name:                    gfx1151 \n  \
                  Name: gfx1100\n";
    assert_eq!(gpu_arch(Some(report)), "gfx1151");
    assert_eq!(gpu_arch(Some("Name:gfx90a")), "gfx90a");
    assert_eq!(gpu_arch(Some("Name: gfx\r")), "gfx");
    assert_eq!(gpu_arch(Some("name: gfx1151\nxName: gfx1151\n")), "unknown");
    assert_eq!(gpu_arch(Some("Name: AMD gfx1151")), "unknown");
    assert_eq!(gpu_arch(Some("")), "unknown");
    assert_eq!(gpu_arch(None), "unknown");
}

#[test]
fn the_version_is_trimmed() {
    assert_eq!(rocm_version(Some("7.2.4\n")), "7.2.4");
    assert_eq!(rocm_version(Some(" \n")), "");
    assert_eq!(rocm_version(None), "unknown");
}

#[test]
fn the_manifest_records_the_digest() {
    let ratio = Single::from_bits(0.5f32.to_bits());
    let m = build_manifest(
        b"abc",
        Backbone::Mobilenetv3,
        1024,
        576,
        ratio,
        "gfx1151".to_string(),
        "7.2.4".to_string(),
    );
    assert_eq!(
        m.source_sha256,
        "ba7816bf8f01cfea414140de5dae2223b00361a396177a9cb410ff61f20015ad"
    );
    assert_eq!(m.backbone, "mobilenetv3");
    assert_eq!((m.width, m.height, m.ratio), (1024, 576, ratio));
    assert_eq!((m.gpu_arch.as_str(), m.rocm_version.as_str()), ("gfx1151", "7.2.4"));
}
