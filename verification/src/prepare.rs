//! Preparing a model: where things are kept, what is recorded, what is built.

use crate::cli::Backbone;
use crate::freeze;
use crate::freeze::FreezeError;
use crate::manifest::Manifest;
use crate::onnx;
use crate::single::Single;
use crate::text;
use crate::wire;
use vstd::prelude::*;
use vstd::utf8;

verus! {

/// A path with one more component.
pub open spec fn joined(dir: Seq<u8>, name: Seq<char>) -> Seq<u8> {
    if dir.len() == 0 || dir.last() == 47 {
        dir + utf8::encode_utf8(name)
    } else {
        dir.push(47) + utf8::encode_utf8(name)
    }
}

fn join(dir: &[u8], name: &str) -> (path: Vec<u8>)
    ensures
        path@ == joined(dir@, name@),
{
    let mut path = vstd::slice::slice_to_vec(dir);
    if dir.len() > 0 && dir[dir.len() - 1] != 47 {
        path.push(47);
    }
    path.extend_from_slice(name.as_bytes());
    assert(path@ =~= joined(dir@, name@));
    path
}

/// Where caches go: what `XDG_CACHE_HOME` says, or `.cache` under the home
/// directory.
pub open spec fn caches(xdg_cache_home: Option<Seq<u8>>, home: Option<Seq<u8>>) -> Seq<u8> {
    match xdg_cache_home {
        Some(dir) => dir,
        None => joined(home->0, ".cache"@),
    }
}

pub open spec fn bytes_view(bytes: Option<&[u8]>) -> Option<Seq<u8>> {
    match bytes {
        Some(b) => Some(b@),
        None => None,
    }
}

/// Everything `prepare` produces lives here. The arguments are the values of
/// `XDG_CACHE_HOME` and `HOME`.
pub fn cache_dir(xdg_cache_home: Option<&[u8]>, home: Option<&[u8]>) -> (dir: Vec<u8>)
    requires
        xdg_cache_home is Some || home is Some,
    ensures
        dir@ == joined(caches(bytes_view(xdg_cache_home), bytes_view(home)), "matting"@),
{
    match xdg_cache_home {
        Some(dir) => join(dir, "matting"),
        None => {
            let dir = join(home.unwrap(), ".cache");
            join(dir.as_slice(), "matting")
        },
    }
}

pub fn frozen_model_path(dir: &[u8]) -> (path: Vec<u8>)
    ensures
        path@ == joined(dir@, "model_frozen.onnx"@),
{
    join(dir, "model_frozen.onnx")
}

pub fn mxr_dir(dir: &[u8]) -> (path: Vec<u8>)
    ensures
        path@ == joined(dir@, "mxr"@),
{
    join(dir, "mxr")
}

pub open spec fn starts_with(s: Seq<char>, prefix: Seq<char>) -> bool {
    s.len() >= prefix.len() && s.subrange(0, prefix.len() as int) == prefix
}

/// The end of the first line.
pub open spec fn line_end(s: Seq<char>) -> int
    decreases s.len(),
{
    if s.len() == 0 || s[0] == '\n' {
        0
    } else {
        1 + line_end(s.subrange(1, s.len() as int))
    }
}

/// The GPU that a line names, if it names one.
pub open spec fn arch_of_line(line: Seq<char>) -> Option<Seq<char>> {
    let entry = text::trimmed(line);
    let name = text::trimmed(entry.subrange("Name:"@.len() as int, entry.len() as int));
    if starts_with(entry, "Name:"@) && starts_with(name, "gfx"@) {
        Some(name)
    } else {
        None
    }
}

pub proof fn lemma_line_end(s: Seq<char>)
    ensures
        0 <= line_end(s) <= s.len(),
    decreases s.len(),
{
    if s.len() > 0 && s[0] != '\n' {
        lemma_line_end(s.subrange(1, s.len() as int));
    }
}

/// The first GPU that a report names.
pub open spec fn arch_of(report: Seq<char>) -> Option<Seq<char>>
    decreases report.len(),
{
    proof {
        lemma_line_end(report);
    }
    let end = line_end(report);
    match arch_of_line(report.subrange(0, end)) {
        Some(name) => Some(name),
        None => if end < report.len() {
            arch_of(report.subrange(end + 1, report.len() as int))
        } else {
            None
        },
    }
}

/// Whether `chars[from..to]` starts with a prefix.
fn has_prefix(chars: &Vec<char>, from: usize, to: usize, prefix: &Vec<char>) -> (yes: bool)
    requires
        from <= to <= chars@.len(),
    ensures
        yes == starts_with(chars@.subrange(from as int, to as int), prefix@),
{
    let ghost s = chars@.subrange(from as int, to as int);
    if to - from < prefix.len() {
        return false;
    }
    let mut i: usize = 0;
    while i < prefix.len()
        invariant
            i <= prefix@.len(),
            from + prefix@.len() <= to <= chars@.len(),
            s == chars@.subrange(from as int, to as int),
            forall|j: int| 0 <= j < i ==> s[j] == #[trigger] prefix@[j],
        decreases prefix.len() - i,
    {
        if chars[from + i] != prefix[i] {
            assert(s.subrange(0, prefix@.len() as int)[i as int] != prefix@[i as int]);
            return false;
        }
        i = i + 1;
    }
    assert(s.subrange(0, prefix@.len() as int) =~= prefix@);
    true
}

/// Where the line that begins at `from` ends.
fn find_line_end(chars: &Vec<char>, from: usize) -> (at: usize)
    requires
        from <= chars@.len(),
    ensures
        from <= at <= chars@.len(),
        at == from + line_end(chars@.subrange(from as int, chars@.len() as int)),
{
    let ghost s = chars@;
    let ghost end = s.len() as int;
    let mut i = from;
    while i < chars.len() && chars[i] != '\n'
        invariant
            from <= i <= s.len(),
            s == chars@,
            end == s.len(),
            line_end(s.subrange(from as int, end)) == i - from + line_end(
                s.subrange(i as int, end),
            ),
        decreases chars.len() - i,
    {
        let ghost rest = s.subrange(i as int, end);
        assert(rest.subrange(1, rest.len() as int) =~= s.subrange(i + 1, end));
        i = i + 1;
    }
    i
}

fn find_arch(report: &str) -> (arch: Option<String>)
    ensures
        match (arch, arch_of(report@)) {
            (Some(a), Some(name)) => a@ == name,
            (None, None) => true,
            _ => false,
        },
{
    let chars = text::chars_of(report);
    let key = text::chars_of("Name:");
    let family = text::chars_of("gfx");
    let ghost s = chars@;
    let ghost end = s.len() as int;
    assert(s.subrange(0, end) =~= s);
    assert(chars@.len() == chars.len());
    let mut start: usize = 0;
    loop
        invariant
            start <= s.len(),
            s == chars@,
            s == report@,
            end == s.len(),
            s.len() <= usize::MAX,
            key@ == "Name:"@,
            family@ == "gfx"@,
            arch_of(s) == arch_of(s.subrange(start as int, end)),
        decreases s.len() - start,
    {
        let ghost rest = s.subrange(start as int, end);
        proof {
            lemma_line_end(rest);
        }
        let stop = find_line_end(&chars, start);
        let ghost line = rest.subrange(0, stop - start);
        assert(line =~= s.subrange(start as int, stop as int));
        let (a, b) = text::trim_range(&chars, start, stop);
        let ghost entry = s.subrange(a as int, b as int);
        if has_prefix(&chars, a, b, &key) {
            let from = a + key.len();
            assert(entry.subrange(key@.len() as int, entry.len() as int) =~= s.subrange(
                from as int,
                b as int,
            ));
            let (c, d) = text::trim_range(&chars, from, b);
            if has_prefix(&chars, c, d, &family) {
                return Some(report.substring_char(c, d).to_owned());
            }
        }
        assert(arch_of_line(line) is None);
        if stop >= chars.len() {
            return None;
        }
        assert(rest.subrange(stop - start + 1, rest.len() as int) =~= s.subrange(stop + 1, end));
        start = stop + 1;
    }
}

/// The GPU architecture, from what `rocminfo` prints, if it could be run.
pub fn gpu_arch(report: Option<&str>) -> (arch: String)
    ensures
        arch@ == match report {
            Some(r) => match arch_of(r@) {
                Some(name) => name,
                None => "unknown"@,
            },
            None => "unknown"@,
        },
{
    match report {
        Some(r) => match find_arch(r) {
            Some(name) => name,
            None => "unknown".to_owned(),
        },
        None => "unknown".to_owned(),
    }
}

/// The ROCm version, from the file that holds it, if it could be read.
pub fn rocm_version(content: Option<&str>) -> (version: String)
    ensures
        version@ == match content {
            Some(c) => text::trimmed(c@),
            None => "unknown"@,
        },
{
    match content {
        Some(c) => text::trim(c),
        None => "unknown".to_owned(),
    }
}

/// The SHA-256 digest of some bytes.
pub uninterp spec fn sha256(bytes: Seq<u8>) -> Seq<u8>;

/// `sha2::Sha256::digest`. The digest is a function of the bytes, named
/// `sha256`, and 32 bytes long.
#[verifier::external_body]
fn digest(bytes: &[u8]) -> (d: Vec<u8>)
    ensures
        d@ == sha256(bytes@),
        d@.len() == 32,
{
    <sha2::Sha256 as sha2::Digest>::digest(bytes).to_vec()
}

/// Records what a model is prepared from and for.
pub fn build_manifest(
    source: &[u8],
    backbone: Backbone,
    width: u32,
    height: u32,
    ratio: Single,
    gpu_arch: String,
    rocm_version: String,
) -> (manifest: Manifest)
    ensures
        manifest.source_sha256@ == text::hex_digits(sha256(source@)),
        manifest.backbone@ == backbone.recorded(),
        manifest.width == width,
        manifest.height == height,
        manifest.ratio == ratio,
        manifest.gpu_arch == gpu_arch,
        manifest.rocm_version == rocm_version,
{
    let sum = digest(source);
    Manifest {
        source_sha256: text::hex(sum.as_slice()),
        backbone: backbone.recorded_name().to_owned(),
        width,
        height,
        ratio,
        gpu_arch,
        rocm_version,
    }
}

/// What a run needs of a cached model: the same source and size, and the
/// backbone, GPU and ROCm version of this run.
pub fn needed_manifest(
    cached: &Manifest,
    backbone: Backbone,
    gpu_arch: String,
    rocm_version: String,
) -> (manifest: Manifest)
    ensures
        manifest.source_sha256@ == cached.source_sha256@,
        manifest.backbone@ == backbone.recorded(),
        manifest.width == cached.width,
        manifest.height == cached.height,
        manifest.ratio == cached.ratio,
        manifest.gpu_arch == gpu_arch,
        manifest.rocm_version == rocm_version,
{
    Manifest {
        source_sha256: cached.source_sha256.clone(),
        backbone: backbone.recorded_name().to_owned(),
        width: cached.width,
        height: cached.height,
        ratio: cached.ratio,
        gpu_arch,
        rocm_version,
    }
}

/// Why a model cannot be prepared. `NotEncodable` is for a frozen model that is
/// too large to be written.
#[derive(Debug)]
pub enum PrepareError {
    NotOnnx,
    Freeze { error: FreezeError },
    Channels { model: Backbone, declared: [i64; 4] },
    NotEncodable,
}

/// What is in the model that some bytes encode, if they encode one whose groups
/// do not nest too deep to be parsed.
pub open spec fn source_of(bytes: Seq<u8>) -> Option<(Option<onnx::Graph>, Seq<u8>)> {
    if wire::is_shallow(bytes) {
        onnx::decoded(bytes)
    } else {
        None
    }
}

/// What is in a model once it is frozen.
pub open spec fn prepared(
    source: (Option<onnx::Graph>, Seq<u8>),
    width: u32,
    height: u32,
    ratio: Single,
) -> (Option<onnx::Graph>, Seq<u8>) {
    (Some(freeze::frozen(source.0, width, height, ratio)->Ok_0), source.1)
}

/// Whether a model can be written with this in it.
pub open spec fn is_writable(content: (Option<onnx::Graph>, Seq<u8>)) -> bool {
    onnx::is_encodable(onnx::encoded_size(content.0, content.1))
}

/// Whether a parsed model declares the channels of a backbone.
pub open spec fn suits(
    source: Option<(Option<onnx::Graph>, Seq<u8>)>,
    model: Backbone,
) -> bool {
    source matches Some((graph, _)) && freeze::channels(graph) == Ok::<Seq<i64>, FreezeError>(
        model.channels(),
    )
}

/// Whether an error is the one that a parsed model gives that does not suit a
/// backbone.
pub open spec fn is_unsuited(
    error: PrepareError,
    source: Option<(Option<onnx::Graph>, Seq<u8>)>,
    model: Backbone,
) -> bool {
    match source {
        None => error is NotOnnx,
        Some((graph, _)) => match freeze::channels(graph) {
            Err(e) => error == (PrepareError::Freeze { error: e }),
            Ok(widths) => widths != model.channels() && (
            error matches PrepareError::Channels { model: m, declared } && m == model && declared@
                == widths),
        },
    }
}

/// Whether an error is the one that a parsed model gives, frozen for a
/// backbone. `source` is what is in the model, if there is one.
pub open spec fn refuses(
    error: PrepareError,
    source: Option<(Option<onnx::Graph>, Seq<u8>)>,
    model: Backbone,
    width: u32,
    height: u32,
    ratio: Single,
) -> bool {
    if !suits(source, model) {
        is_unsuited(error, source, model)
    } else {
        match freeze::frozen((source->0).0, width, height, ratio) {
            Err(e) => error == (PrepareError::Freeze { error: e }),
            Ok(_) => error is NotEncodable && !is_writable(
                prepared(source->0, width, height, ratio),
            ),
        }
    }
}

/// Whether a parsed model can be frozen for a backbone, and written.
pub open spec fn accepts(
    source: Option<(Option<onnx::Graph>, Seq<u8>)>,
    model: Backbone,
    width: u32,
    height: u32,
    ratio: Single,
) -> bool {
    suits(source, model) && freeze::frozen((source->0).0, width, height, ratio) is Ok
        && is_writable(prepared(source->0, width, height, ratio))
}

/// Parses an encoded model, and refuses one that is not for a backbone.
fn read_model(bytes: &[u8], model: Backbone) -> (result: Result<
    onnx_protobuf::ModelProto,
    PrepareError,
>)
    ensures
        match result {
            Ok(m) => suits(source_of(bytes@), model) && source_of(bytes@) == Some(
                (onnx::graph_of(m), onnx::rest_of(m)),
            ) && onnx::is_readable(m),
            Err(e) => is_unsuited(e, source_of(bytes@), model),
        },
{
    if !wire::check_groups(bytes) {
        return Err(PrepareError::NotOnnx);
    }
    let proto = match onnx::parse_model(bytes) {
        Ok(m) => m,
        Err(_) => return Err(PrepareError::NotOnnx),
    };
    let declared = match freeze::read_state_channels(&proto) {
        Ok(c) => c,
        Err(error) => return Err(PrepareError::Freeze { error }),
    };
    let expected = model.expected_channels();
    if !(declared[0] == expected[0] && declared[1] == expected[1] && declared[2] == expected[2]
        && declared[3] == expected[3]) {
        return Err(PrepareError::Channels { model, declared });
    }
    assert(declared@ =~= expected@);
    Ok(proto)
}

/// Checks an encoded model against the backbone that was asked for.
pub fn check_model(bytes: &[u8], model: Backbone) -> (result: Result<(), PrepareError>)
    ensures
        result is Ok <==> suits(source_of(bytes@), model),
        result matches Err(e) ==> is_unsuited(e, source_of(bytes@), model),
{
    match read_model(bytes, model) {
        Ok(_) => Ok(()),
        Err(e) => Err(e),
    }
}

/// Freezes an encoded model. The channel widths that the model declares are
/// trusted over the backbone that was asked for: where they disagree, the model
/// is refused.
pub fn prepare_model(
    bytes: &[u8],
    model: Backbone,
    width: u32,
    height: u32,
    ratio: Single,
) -> (result: Result<Vec<u8>, PrepareError>)
    ensures
        result is Ok <==> accepts(source_of(bytes@), model, width, height, ratio),
        match result {
            Ok(out) => source_of(out@) == Some(
                prepared(source_of(bytes@)->0, width, height, ratio),
            ),
            Err(e) => refuses(e, source_of(bytes@), model, width, height, ratio),
        },
        result matches Ok(out) ==> is_made_of(
            source_of(bytes@),
            source_of(out@),
            width,
            height,
            ratio,
        ),
{
    proof {
        if accepts(source_of(bytes@), model, width, height, ratio) {
            law_prepared_model(source_of(bytes@), model, width, height, ratio);
        }
    }
    let proto = match read_model(bytes, model) {
        Ok(m) => m,
        Err(e) => return Err(e),
    };
    let frozen = match freeze::freeze_model(proto, width, height, ratio) {
        Ok(m) => m,
        Err(error) => return Err(PrepareError::Freeze { error }),
    };
    let size = onnx::measure_model(&frozen);
    if size > u32::MAX as u64 || size > isize::MAX as u64 {
        return Err(PrepareError::NotEncodable);
    }
    match onnx::encode_model(&frozen) {
        Ok(out) => Ok(out),
        Err(_) => Err(PrepareError::NotEncodable),
    }
}

/// Whether a model is another one, prepared: it takes an image of the given size,
/// its ratio is a constant, and all else is kept but the shapes of the inputs.
pub open spec fn is_made_of(
    source: Option<(Option<onnx::Graph>, Seq<u8>)>,
    made: Option<(Option<onnx::Graph>, Seq<u8>)>,
    width: u32,
    height: u32,
    ratio: Single,
) -> bool {
    &&& source matches Some((Some(was), rest)) && made matches Some((Some(now), kept)) && {
        &&& kept == rest
        &&& now.outputs == was.outputs
        &&& now.constants.len() == was.constants.len() + 1
        &&& now.constants.drop_last() == was.constants
        &&& now.constants.last().name == "downsample_ratio"@
        &&& now.constants.last().data_type == 1
        &&& now.constants.last().dims == seq![1i64]
        &&& now.constants.last().floats == seq![ratio.bits]
        &&& forall|i: int|
            freeze::is_first(now.inputs, i, "src"@) ==> (#[trigger] now.inputs[i]).dims == seq![
                onnx::Dim::Fixed { value: 1 },
                onnx::Dim::Fixed { value: 3 },
                onnx::Dim::Fixed { value: height as i64 },
                onnx::Dim::Fixed { value: width as i64 },
            ]
    }
}

/// A prepared model takes one RGB image of the frame's size, and its ratio is a
/// constant. Its outputs, its other constants and everything around its graph
/// are those of the model that it was made of.
pub proof fn law_prepared_model(
    source: Option<(Option<onnx::Graph>, Seq<u8>)>,
    model: Backbone,
    width: u32,
    height: u32,
    ratio: Single,
)
    requires
        accepts(source, model, width, height, ratio),
    ensures
        is_made_of(
            source,
            Some(prepared(source->0, width, height, ratio)),
            width,
            height,
            ratio,
        ),
{
    let graph = (source->0).0;
    let now = freeze::frozen(graph, width, height, ratio)->Ok_0;
    freeze::law_frozen_constants(graph, width, height, ratio, now);
    assert forall|i: int| freeze::is_first(now.inputs, i, "src"@) implies (
    #[trigger] now.inputs[i]).dims == seq![
        onnx::Dim::Fixed { value: 1 },
        onnx::Dim::Fixed { value: 3 },
        onnx::Dim::Fixed { value: height as i64 },
        onnx::Dim::Fixed { value: width as i64 },
    ] by {
        freeze::law_frozen_image_input(graph, width, height, ratio, now, i);
    }
}

/// A joined path is the directory followed by the name, with one slash between
/// them that is either the directory's own or put there. An empty directory
/// needs none.
pub proof fn law_joined(dir: Seq<u8>, name: Seq<char>)
    ensures
        ({
            let path = joined(dir, name);
            let tail = utf8::encode_utf8(name);
            let start = path.len() - tail.len();
            &&& start == dir.len() || start == dir.len() + 1
            &&& path.subrange(0, dir.len() as int) == dir
            &&& path.subrange(start, path.len() as int) == tail
            &&& dir.len() > 0 ==> path[start - 1] == 47
            &&& start > dir.len() ==> dir.len() > 0 && dir[dir.len() - 1] != 47
        }),
{
    let path = joined(dir, name);
    let tail = utf8::encode_utf8(name);
    let start = path.len() - tail.len();
    assert(path.subrange(0, dir.len() as int) =~= dir);
    assert(path.subrange(start, path.len() as int) =~= tail);
}

/// Whether line `from` to `to` of a report says that a GPU is named `name`:
/// white space, `Name:`, white space, the name, which begins with `gfx`, and
/// white space.
pub open spec fn names_gpu(
    report: Seq<char>,
    from: int,
    to: int,
    key: int,
    at: int,
    name: Seq<char>,
) -> bool {
    &&& 0 <= from <= key
    &&& key + 5 <= at
    &&& at + name.len() <= to <= report.len()
    &&& from == 0 || report[from - 1] == '\n'
    &&& to == report.len() || report[to] == '\n'
    &&& forall|i: int| from <= i < to ==> #[trigger] report[i] != '\n'
    &&& forall|i: int| from <= i < key ==> text::is_white(#[trigger] report[i])
    &&& report.subrange(key, key + 5) == "Name:"@
    &&& forall|i: int| key + 5 <= i < at ==> text::is_white(#[trigger] report[i])
    &&& report.subrange(at, at + name.len()) == name
    &&& forall|i: int| at + name.len() <= i < to ==> text::is_white(#[trigger] report[i])
    &&& name.len() >= 3
    &&& name.subrange(0, 3) == "gfx"@
    &&& !text::is_white(name.last())
}

/// The GPU that is found in a report is named on one of its lines.
pub proof fn law_gpu_is_named(report: Seq<char>, name: Seq<char>) -> (place: (int, int, int, int))
    requires
        arch_of(report) == Some(name),
    ensures
        names_gpu(report, place.0, place.1, place.2, place.3, name),
        arch_of_line(report.subrange(0, line_end(report))) is Some ==> place.0 == 0,
    decreases report.len(),
{
    lemma_line_end(report);
    lemma_line(report);
    let end = line_end(report);
    let line = report.subrange(0, end);
    if arch_of_line(line) is Some {
        let (a, b) = text::law_trimmed(line);
        let entry = text::trimmed(line);
        reveal_strlit("Name:");
        reveal_strlit("gfx");
        let rest = entry.subrange(5, entry.len() as int);
        let (c, d) = text::law_trimmed(rest);
        let key = a;
        let at = a + 5 + c;
        assert(name =~= report.subrange(at, at + name.len()));
        assert(entry.subrange(0, 5) =~= report.subrange(key, key + 5));
        assert forall|i: int| 0 <= i < key implies text::is_white(#[trigger] report[i]) by {
            assert(report[i] == line[i]);
        }
        assert forall|i: int| key + 5 <= i < at implies text::is_white(#[trigger] report[i]) by {
            assert(report[i] == rest[i - key - 5]);
        }
        assert forall|i: int| at + name.len() <= i < end implies text::is_white(
            #[trigger] report[i],
        ) by {
            if i < b {
                assert(report[i] == rest[i - key - 5]);
            } else {
                assert(report[i] == line[i]);
            }
        }
        assert(name.last() == rest[d - 1]);
        (0, end, key, at)
    } else {
        let rest = report.subrange(end + 1, report.len() as int);
        let place = law_gpu_is_named(rest, name);
        let moved = end + 1;
        lemma_names_moved(report, moved, place, name);
        (place.0 + moved, place.1 + moved, place.2 + moved, place.3 + moved)
    }
}

/// Where a line of a report names a GPU, one is found: that one, or one on an
/// earlier line.
pub proof fn law_first_gpu_is_found(
    report: Seq<char>,
    from: int,
    to: int,
    key: int,
    at: int,
    name: Seq<char>,
) -> (place: (int, int, int, int))
    requires
        names_gpu(report, from, to, key, at, name),
    ensures
        arch_of(report) matches Some(found) && names_gpu(
            report,
            place.0,
            place.1,
            place.2,
            place.3,
            found,
        ) && place.0 <= from && (place.0 == from ==> found == name),
    decreases report.len(),
{
    lemma_line_end(report);
    lemma_line(report);
    let end = line_end(report);
    let line = report.subrange(0, end);
    if from == 0 {
        assert(end == to) by {
            if end < to {
                assert(report[end] == '\n');
            }
        }
        lemma_line_names(report, to, key, at, name);
        (0, to, key, at)
    } else {
        assert(end < from) by {
            if end >= from {
                assert(report[from - 1] == '\n');
            }
        }
        if arch_of_line(line) is Some {
            let found = arch_of_line(line)->0;
            law_gpu_is_named(report, found)
        } else {
            let moved = end + 1;
            let rest = report.subrange(moved, report.len() as int);
            assert(names_gpu(rest, from - moved, to - moved, key - moved, at - moved, name)) by {
                assert(rest.subrange(key - moved, key - moved + 5) =~= report.subrange(
                    key,
                    key + 5,
                ));
                assert(rest.subrange(at - moved, at - moved + name.len()) =~= report.subrange(
                    at,
                    at + name.len(),
                ));
            }
            let place = law_first_gpu_is_found(
                rest,
                from - moved,
                to - moved,
                key - moved,
                at - moved,
                name,
            );
            let found = arch_of(rest)->0;
            lemma_names_moved(report, moved, place, found);
            (place.0 + moved, place.1 + moved, place.2 + moved, place.3 + moved)
        }
    }
}

proof fn lemma_names_moved(
    report: Seq<char>,
    moved: int,
    place: (int, int, int, int),
    name: Seq<char>,
)
    requires
        0 < moved <= report.len(),
        report[moved - 1] == '\n',
        names_gpu(
            report.subrange(moved, report.len() as int),
            place.0,
            place.1,
            place.2,
            place.3,
            name,
        ),
    ensures
        names_gpu(
            report,
            place.0 + moved,
            place.1 + moved,
            place.2 + moved,
            place.3 + moved,
            name,
        ),
{
    let rest = report.subrange(moved, report.len() as int);
    let (from, to, key, at) = place;
    assert(report.subrange(key + moved, key + moved + 5) =~= rest.subrange(key, key + 5));
    assert(report.subrange(at + moved, at + moved + name.len()) =~= rest.subrange(
        at,
        at + name.len(),
    ));
    assert forall|i: int| from + moved <= i < to + moved implies #[trigger] report[i] != '\n' by {
        assert(report[i] == rest[i - moved]);
    }
    assert forall|i: int| from + moved <= i < key + moved implies text::is_white(
        #[trigger] report[i],
    ) by {
        assert(report[i] == rest[i - moved]);
    }
    assert forall|i: int| key + moved + 5 <= i < at + moved implies text::is_white(
        #[trigger] report[i],
    ) by {
        assert(report[i] == rest[i - moved]);
    }
    assert forall|i: int| at + moved + name.len() <= i < to + moved implies text::is_white(
        #[trigger] report[i],
    ) by {
        assert(report[i] == rest[i - moved]);
    }
    if from > 0 {
        assert(report[from + moved - 1] == rest[from - 1]);
    }
    if to < rest.len() {
        assert(report[to + moved] == rest[to]);
    }
}

/// The first line of a report, where it names a GPU.
proof fn lemma_line_names(report: Seq<char>, to: int, key: int, at: int, name: Seq<char>)
    requires
        names_gpu(report, 0, to, key, at, name),
        line_end(report) == to,
    ensures
        arch_of_line(report.subrange(0, to)) == Some(name),
        arch_of(report) == Some(name),
{
    reveal_strlit("Name:");
    reveal_strlit("gfx");
    let line = report.subrange(0, to);
    let stop = at + name.len();
    let entry = report.subrange(key, stop);
    assert("Name:"@[0] == 'N' && "gfx"@[0] == 'g');
    assert(report.subrange(key, key + 5)[0] == report[key]);
    assert(name[0] == name.subrange(0, 3)[0]);
    assert(report.subrange(at, stop)[0] == report[at]);
    assert(report.subrange(at, stop).last() == report[stop - 1]);
    assert forall|i: int| 0 <= i < key implies text::is_white(#[trigger] line[i]) by {
        assert(line[i] == report[i]);
    }
    assert forall|i: int| stop <= i < line.len() implies text::is_white(#[trigger] line[i]) by {
        assert(line[i] == report[i]);
    }
    text::law_trimmed_is_the_middle(line, key, stop);
    assert(line.subrange(key, stop) =~= entry);
    assert(entry.subrange(0, 5) =~= report.subrange(key, key + 5));
    let rest = entry.subrange(5, entry.len() as int);
    assert forall|i: int| 0 <= i < at - key - 5 implies text::is_white(#[trigger] rest[i]) by {
        assert(rest[i] == report[key + 5 + i]);
    }
    text::law_trimmed_is_the_middle(rest, at - key - 5, rest.len() as int);
    assert(rest.subrange(at - key - 5, rest.len() as int) =~= name);
}

proof fn lemma_line(s: Seq<char>)
    ensures
        0 <= line_end(s) <= s.len(),
        line_end(s) < s.len() ==> s[line_end(s)] == '\n',
        forall|i: int| 0 <= i < line_end(s) ==> #[trigger] s[i] != '\n',
    decreases s.len(),
{
    if s.len() > 0 && s[0] != '\n' {
        let rest = s.subrange(1, s.len() as int);
        lemma_line(rest);
        assert forall|i: int| 0 <= i < line_end(s) implies #[trigger] s[i] != '\n' by {
            if i > 0 {
                assert(s[i] == rest[i - 1]);
            }
        }
    }
}

/// A prepared model cannot be prepared again for its backbone, at any size or
/// ratio: it takes no ratio any more.
pub proof fn law_prepared_once(
    source: Option<(Option<onnx::Graph>, Seq<u8>)>,
    model: Backbone,
    width: u32,
    height: u32,
    ratio: Single,
    new_width: u32,
    new_height: u32,
    new_ratio: Single,
    error: PrepareError,
)
    requires
        accepts(source, model, width, height, ratio),
    ensures
        ({
            let again = Some(prepared(source->0, width, height, ratio));
            &&& !accepts(again, model, new_width, new_height, new_ratio)
            &&& refuses(error, again, model, new_width, new_height, new_ratio) <==> error == (
            PrepareError::Freeze { error: FreezeError::NoRatioInput })
        }),
{
    let graph = (source->0).0;
    let frozen = freeze::frozen(graph, width, height, ratio)->Ok_0;
    freeze::law_frozen_model(graph, width, height, ratio, frozen);
    freeze::law_frozen_once(
        graph,
        width,
        height,
        ratio,
        frozen,
        new_width,
        new_height,
        new_ratio,
    );
    assert(freeze::channel(frozen, 1) == freeze::channel(graph->0, 1));
    assert(freeze::channel(frozen, 2) == freeze::channel(graph->0, 2));
    assert(freeze::channel(frozen, 3) == freeze::channel(graph->0, 3));
    assert(freeze::channel(frozen, 4) == freeze::channel(graph->0, 4));
}

pub open spec fn list_text(widths: Seq<i64>) -> Seq<char> {
    "["@ + text::signed_digits(widths[0] as int) + ", "@ + text::signed_digits(widths[1] as int)
        + ", "@ + text::signed_digits(widths[2] as int) + ", "@ + text::signed_digits(
        widths[3] as int,
    ) + "]"@
}

fn list(widths: [i64; 4]) -> (text: String)
    ensures
        text@ == list_text(widths@),
{
    "[".to_owned().concat(text::signed_decimal(widths[0]).as_str()).concat(", ").concat(
        text::signed_decimal(widths[1]).as_str(),
    ).concat(", ").concat(text::signed_decimal(widths[2]).as_str()).concat(", ").concat(
        text::signed_decimal(widths[3]).as_str(),
    ).concat("]")
}

pub open spec fn error_text(error: PrepareError) -> Seq<char> {
    match error {
        PrepareError::NotOnnx => "not a valid ONNX model"@,
        PrepareError::Freeze { error } => freeze::error_text(error),
        PrepareError::Channels { model, declared } => "--model "@ + model.shown()
            + " expects state channels "@ + list_text(model.channels())
            + " but this model declares "@ + list_text(declared@) + "; pass the matching --model"@,
        PrepareError::NotEncodable => "the frozen model is too large to be encoded"@,
    }
}

impl PrepareError {
    pub fn message(&self) -> (text: String)
        ensures
            text@ == error_text(*self),
    {
        match self {
            PrepareError::NotOnnx => "not a valid ONNX model".to_owned(),
            PrepareError::Freeze { error } => error.message(),
            PrepareError::Channels { model, declared } => "--model ".to_owned().concat(
                model.shown_name(),
            ).concat(" expects state channels ").concat(
                list(model.expected_channels()).as_str(),
            ).concat(" but this model declares ").concat(list(*declared).as_str()).concat(
                "; pass the matching --model",
            ),
            PrepareError::NotEncodable => "the frozen model is too large to be encoded".to_owned(),
        }
    }
}

} // verus!
