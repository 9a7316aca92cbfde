//! What `prepare` built, and whether it still is what a run needs.

use crate::number::Number;
use crate::precision;
use crate::rounding;
use crate::single::Single;
use crate::text;
use vstd::arithmetic::power2;
use vstd::prelude::*;

verus! {

/// Records what `prepare` built, so `run` can refuse a stale cache instead of
/// silently falling back to CPU.
#[derive(Debug, Clone, PartialEq)]
pub struct Manifest {
    pub source_sha256: String,
    pub backbone: String,
    pub width: u32,
    pub height: u32,
    pub ratio: Single,
    pub gpu_arch: String,
    pub rocm_version: String,
}

#[derive(Debug, Clone, Copy, PartialEq, Eq, Structural)]
pub enum Field {
    SourceSha256,
    Backbone,
    Width,
    Height,
    GpuArch,
    RocmVersion,
    Ratio,
}

/// Why a cached model cannot be used: the fields that differ.
#[derive(Debug)]
pub struct StaleManifest {
    pub fields: Vec<Field>,
}

/// The order in which differences are reported.
pub open spec fn reported_order() -> Seq<Field> {
    seq![
        Field::SourceSha256,
        Field::Backbone,
        Field::Width,
        Field::Height,
        Field::GpuArch,
        Field::RocmVersion,
        Field::Ratio,
    ]
}

/// Whether two ratios are further apart than 2^-23.
pub open spec fn ratios_differ(a: Number, b: Number) -> bool {
    a.minus(b).magnitude().exceeds(Number::ratio(1, 0x80_0000))
}

impl Manifest {
    pub open spec fn differs_in(&self, other: &Manifest, field: Field) -> bool {
        match field {
            Field::SourceSha256 => self.source_sha256@ != other.source_sha256@,
            Field::Backbone => self.backbone@ != other.backbone@,
            Field::Width => self.width != other.width,
            Field::Height => self.height != other.height,
            Field::GpuArch => self.gpu_arch@ != other.gpu_arch@,
            Field::RocmVersion => self.rocm_version@ != other.rocm_version@,
            Field::Ratio => ratios_differ(self.ratio@, other.ratio@),
        }
    }

    /// The fields that differ, in the order in which they are reported.
    pub open spec fn differences(&self, other: &Manifest) -> Seq<Field> {
        reported_order().filter(|field: Field| self.differs_in(other, field))
    }

    fn differs(&self, other: &Manifest, field: Field) -> (yes: bool)
        ensures
            yes == self.differs_in(other, field),
    {
        match field {
            Field::SourceSha256 => !(self.source_sha256 == other.source_sha256),
            Field::Backbone => !(self.backbone == other.backbone),
            Field::Width => self.width != other.width,
            Field::Height => self.height != other.height,
            Field::GpuArch => !(self.gpu_arch == other.gpu_arch),
            Field::RocmVersion => !(self.rocm_version == other.rocm_version),
            Field::Ratio => {
                proof {
                    lemma_tolerance();
                }
                self.ratio.minus(other.ratio).magnitude().exceeds(Single::from_bits(0x3400_0000))
            },
        }
    }

    /// `self` is what is on disk; `other` is what the current run needs.
    pub fn check_matches(&self, other: &Manifest) -> (verdict: Result<(), StaleManifest>)
        ensures
            match verdict {
                Ok(_) => self.differences(other).len() == 0,
                Err(stale) => stale.fields@ == self.differences(other) && stale.fields@.len() > 0,
            },
            verdict is Ok <==> self.source_sha256@ == other.source_sha256@ && self.backbone@
                == other.backbone@ && self.width == other.width && self.height == other.height
                && self.gpu_arch@ == other.gpu_arch@ && self.rocm_version@ == other.rocm_version@
                && !ratios_differ(self.ratio@, other.ratio@),
    {
        proof {
            law_stale_exactly_where_different(self, other);
        }
        let all: [Field; 7] = [
            Field::SourceSha256,
            Field::Backbone,
            Field::Width,
            Field::Height,
            Field::GpuArch,
            Field::RocmVersion,
            Field::Ratio,
        ];
        let ghost order = reported_order();
        let ghost differing = |field: Field| self.differs_in(other, field);
        assert(all@ =~= order);
        assert(order.subrange(0, 0).filter(differing) =~= Seq::<Field>::empty()) by {
            reveal(Seq::filter);
        }
        let mut fields: Vec<Field> = Vec::new();
        let mut i: usize = 0;
        while i < 7
            invariant
                i <= 7,
                all@ == order,
                order.len() == 7,
                differing == (|field: Field| self.differs_in(other, field)),
                fields@ == order.subrange(0, i as int).filter(differing),
            decreases 7 - i,
        {
            let field = all[i];
            proof {
                let next = order.subrange(0, i + 1);
                assert(next.drop_last() =~= order.subrange(0, i as int));
                assert(next.last() == field);
                reveal(Seq::filter);
            }
            if self.differs(other, field) {
                fields.push(field);
            }
            i = i + 1;
        }
        assert(order.subrange(0, 7) =~= order);
        if fields.len() == 0 {
            Ok(())
        } else {
            Err(StaleManifest { fields })
        }
    }
}

proof fn lemma_tolerance()
    ensures
        Number::of_bits(0x3400_0000) == Number::ratio(1, 0x80_0000),
{
    power2::lemma2_to64();
    power2::lemma2_to64_rest();
    precision::lemma_ratio_pattern(1, 0x80_0000, 46, 0x3400_0000);
}

/// One line of the report, given how the two ratios are written.
pub open spec fn difference_text(
    field: Field,
    cached: &Manifest,
    needed: &Manifest,
    ratios: (Seq<char>, Seq<char>),
) -> Seq<char> {
    let (name, a, b) = match field {
        Field::SourceSha256 => (
            "source_sha256"@,
            text::quoted(cached.source_sha256@),
            text::quoted(needed.source_sha256@),
        ),
        Field::Backbone => (
            "backbone"@,
            text::quoted(cached.backbone@),
            text::quoted(needed.backbone@),
        ),
        Field::Width => (
            "width"@,
            text::digits(cached.width as nat),
            text::digits(needed.width as nat),
        ),
        Field::Height => (
            "height"@,
            text::digits(cached.height as nat),
            text::digits(needed.height as nat),
        ),
        Field::GpuArch => (
            "gpu_arch"@,
            text::quoted(cached.gpu_arch@),
            text::quoted(needed.gpu_arch@),
        ),
        Field::RocmVersion => (
            "rocm_version"@,
            text::quoted(cached.rocm_version@),
            text::quoted(needed.rocm_version@),
        ),
        Field::Ratio => ("ratio"@, ratios.0, ratios.1),
    };
    name + ": cached "@ + a + " but need "@ + b
}

/// The lines of the report, each on its own, indented.
pub open spec fn report_lines(
    fields: Seq<Field>,
    cached: &Manifest,
    needed: &Manifest,
    ratios: (Seq<char>, Seq<char>),
) -> Seq<char>
    decreases fields.len(),
{
    if fields.len() == 0 {
        Seq::empty()
    } else {
        report_lines(fields.drop_last(), cached, needed, ratios) + "\n  "@ + difference_text(
            fields.last(),
            cached,
            needed,
            ratios,
        )
    }
}

fn describe(
    field: Field,
    cached: &Manifest,
    needed: &Manifest,
    cached_ratio: &str,
    needed_ratio: &str,
) -> (line: String)
    ensures
        line@ == difference_text(field, cached, needed, (cached_ratio@, needed_ratio@)),
{
    let (name, a, b) = match field {
        Field::SourceSha256 => (
            "source_sha256",
            text::quote(cached.source_sha256.as_str()),
            text::quote(needed.source_sha256.as_str()),
        ),
        Field::Backbone => (
            "backbone",
            text::quote(cached.backbone.as_str()),
            text::quote(needed.backbone.as_str()),
        ),
        Field::Width => (
            "width",
            text::decimal(cached.width as u64),
            text::decimal(needed.width as u64),
        ),
        Field::Height => (
            "height",
            text::decimal(cached.height as u64),
            text::decimal(needed.height as u64),
        ),
        Field::GpuArch => (
            "gpu_arch",
            text::quote(cached.gpu_arch.as_str()),
            text::quote(needed.gpu_arch.as_str()),
        ),
        Field::RocmVersion => (
            "rocm_version",
            text::quote(cached.rocm_version.as_str()),
            text::quote(needed.rocm_version.as_str()),
        ),
        Field::Ratio => ("ratio", cached_ratio.to_owned(), needed_ratio.to_owned()),
    };
    name.to_owned().concat(": cached ").concat(a.as_str()).concat(" but need ").concat(b.as_str())
}

impl StaleManifest {
    /// What to tell the user, given how the two ratios are written.
    pub fn message(
        &self,
        cached: &Manifest,
        needed: &Manifest,
        cached_ratio: &str,
        needed_ratio: &str,
    ) -> (text: String)
        ensures
            text@ == "prepared model is stale, re-run `matting prepare`:"@ + report_lines(
                self.fields@,
                cached,
                needed,
                (cached_ratio@, needed_ratio@),
            ),
    {
        let ghost head = "prepared model is stale, re-run `matting prepare`:"@;
        let ghost ratios = (cached_ratio@, needed_ratio@);
        let mut text = "prepared model is stale, re-run `matting prepare`:".to_owned();
        let mut i: usize = 0;
        assert(text@ =~= head + report_lines(self.fields@.subrange(0, 0), cached, needed, ratios));
        while i < self.fields.len()
            invariant
                i <= self.fields@.len(),
                ratios == (cached_ratio@, needed_ratio@),
                text@ == head + report_lines(
                    self.fields@.subrange(0, i as int),
                    cached,
                    needed,
                    ratios,
                ),
            decreases self.fields.len() - i,
        {
            let ghost next = self.fields@.subrange(0, i + 1);
            assert(next.drop_last() =~= self.fields@.subrange(0, i as int));
            text.append("\n  ");
            text.append(
                describe(self.fields[i], cached, needed, cached_ratio, needed_ratio).as_str(),
            );
            assert(text@ =~= head + report_lines(next, cached, needed, ratios));
            i = i + 1;
        }
        assert(self.fields@.subrange(0, self.fields@.len() as int) =~= self.fields@);
        text
    }
}

/// A manifest matches itself.
pub proof fn law_same_manifest_matches(manifest: &Manifest)
    ensures
        manifest.differences(manifest).len() == 0,
{
    lemma_same_ratio(manifest.ratio);
    let differing = |field: Field| manifest.differs_in(manifest, field);
    assert forall|field: Field| !manifest.differs_in(manifest, field) by {}
    let order = reported_order();
    if order.filter(differing).len() > 0 {
        order.lemma_filter_pred(differing, 0);
    }
}

proof fn lemma_same_ratio(ratio: Single)
    ensures
        !ratios_differ(ratio@, ratio@),
{
    precision::lemma_ratio_close(1, 0x80_0000);
}

/// A cache is refused exactly where the source, the backbone, the size, the GPU,
/// the ROCm version or the ratio differs. Just the fields that differ are named.
pub proof fn law_stale_exactly_where_different(cached: &Manifest, needed: &Manifest)
    ensures
        ({
            let fields = cached.differences(needed);
            &&& fields.contains(Field::SourceSha256) <==> cached.source_sha256@
                != needed.source_sha256@
            &&& fields.contains(Field::Backbone) <==> cached.backbone@ != needed.backbone@
            &&& fields.contains(Field::Width) <==> cached.width != needed.width
            &&& fields.contains(Field::Height) <==> cached.height != needed.height
            &&& fields.contains(Field::GpuArch) <==> cached.gpu_arch@ != needed.gpu_arch@
            &&& fields.contains(Field::RocmVersion) <==> cached.rocm_version@
                != needed.rocm_version@
            &&& fields.contains(Field::Ratio) <==> ratios_differ(cached.ratio@, needed.ratio@)
            &&& fields.len() == 0 <==> cached.source_sha256@ == needed.source_sha256@
                && cached.backbone@ == needed.backbone@ && cached.width == needed.width
                && cached.height == needed.height && cached.gpu_arch@ == needed.gpu_arch@
                && cached.rocm_version@ == needed.rocm_version@ && !ratios_differ(
                cached.ratio@,
                needed.ratio@,
            )
        }),
{
    law_every_difference_is_reported(cached, needed, Field::SourceSha256);
    law_every_difference_is_reported(cached, needed, Field::Backbone);
    law_every_difference_is_reported(cached, needed, Field::Width);
    law_every_difference_is_reported(cached, needed, Field::Height);
    law_every_difference_is_reported(cached, needed, Field::GpuArch);
    law_every_difference_is_reported(cached, needed, Field::RocmVersion);
    law_every_difference_is_reported(cached, needed, Field::Ratio);
    let fields = cached.differences(needed);
    if fields.len() > 0 {
        assert(fields.contains(fields[0]));
    }
}

/// Ratios that are finite differ where they are more than 2^-23 apart, and do
/// not where they are less. One part in 2^24 is left to the rounding of their
/// difference.
pub proof fn law_ratio_tolerance(a: Number, b: Number)
    requires
        a is Finite,
        b is Finite,
    ensures
        ({
            let apart = if a.signed() > b.signed() {
                a.signed() - b.signed()
            } else {
                b.signed() - a.signed()
            };
            let one = precision::one();
            &&& 0x80_0000 * (0x100_0001 * apart + 0x80_0000) <= 0x100_0000 * one ==> !ratios_differ(
                a,
                b,
            )
            &&& 0x80_0000 * (0xff_ffff * apart - 0x80_0000) > 0x100_0000 * one ==> ratios_differ(
                a,
                b,
            )
            &&& ratios_differ(a, b) == ratios_differ(b, a)
        }),
{
    let one = precision::one();
    precision::lemma_one();
    lemma_tolerance_units();
    let apart: nat = (if a.signed() > b.signed() {
        a.signed() - b.signed()
    } else {
        b.signed() - a.signed()
    }) as nat;
    precision::lemma_rounded_fine(apart, 1);
    power2::lemma_pow2_strictly_increases(149, 277);
    let d = a.minus(b);
    let r = rounding::rounded(apart, 1);
    assert(b.negated().signed() == -b.signed());
    assert(a.negated().signed() == -a.signed());
    if apart == 0 {
        assert(d.is_zero());
        assert(b.minus(a).is_zero());
    } else {
        assert(d.magnitude() == Number::bounded(false, r));
        assert(b.minus(a).magnitude() == Number::bounded(false, r));
    }
}

proof fn lemma_tolerance_units()
    ensures
        Number::ratio(1, 0x80_0000) is Finite,
        Number::ratio(1, 0x80_0000).signed() * 0x80_0000 == precision::one(),
{
    lemma_tolerance();
    precision::lemma_one();
    power2::lemma_pow2_adds(23, 126);
    power2::lemma_pow2_adds(23, 103);
    power2::lemma2_to64();
    assert(Number::of_bits(0x3400_0000) == (Number::Finite {
        negative: false,
        units: 0x80_0000 * power2::pow2(103),
    })) by {
        assert(0x3400_0000nat / 0x80_0000 == 104);
        assert(0x3400_0000nat % 0x80_0000 == 0);
    }
}

/// Where a field comes in a report.
pub open spec fn rank(field: Field) -> int {
    match field {
        Field::SourceSha256 => 1,
        Field::Backbone => 2,
        Field::Width => 3,
        Field::Height => 4,
        Field::GpuArch => 5,
        Field::RocmVersion => 6,
        Field::Ratio => 7,
    }
}

/// Differences are reported in one order, and each once: source, backbone,
/// width, height, GPU, ROCm version, ratio.
pub proof fn law_reported_in_order(cached: &Manifest, needed: &Manifest, i: int, j: int)
    requires
        0 <= i < j < cached.differences(needed).len(),
    ensures
        rank(cached.differences(needed)[i]) < rank(cached.differences(needed)[j]),
{
    lemma_filter_ordered(
        reported_order(),
        |field: Field| cached.differs_in(needed, field),
        i,
        j,
    );
}

proof fn lemma_filter_ordered(fields: Seq<Field>, keeps: spec_fn(Field) -> bool, i: int, j: int)
    requires
        forall|m: int, n: int|
            0 <= m < n < fields.len() ==> rank(#[trigger] fields[m]) < rank(#[trigger] fields[n]),
        0 <= i < j < fields.filter(keeps).len(),
    ensures
        rank(fields.filter(keeps)[i]) < rank(fields.filter(keeps)[j]),
    decreases fields.len(),
{
    reveal(Seq::filter);
    let before = fields.drop_last();
    if j < before.filter(keeps).len() {
        lemma_filter_ordered(before, keeps, i, j);
    } else {
        let kept = before.filter(keeps);
        assert(kept[i] == fields.filter(keeps)[i]);
        before.lemma_filter_contains_rev(keeps, kept[i]);
        let m = choose|m: int| 0 <= m < before.len() && before[m] == kept[i];
        assert(fields[m] == kept[i]);
        assert(fields.filter(keeps)[j] == fields[fields.len() - 1]);
    }
}

/// The line for a field that is a text names the field, and quotes first what is
/// cached, then what is needed.
pub proof fn law_text_lines(cached: &Manifest, needed: &Manifest, ratios: (Seq<char>, Seq<char>))
    ensures
        difference_text(Field::SourceSha256, cached, needed, ratios) == "source_sha256: cached "@
            + text::quoted(cached.source_sha256@) + " but need "@ + text::quoted(
            needed.source_sha256@,
        ),
        difference_text(Field::Backbone, cached, needed, ratios) == "backbone: cached "@
            + text::quoted(cached.backbone@) + " but need "@ + text::quoted(needed.backbone@),
        difference_text(Field::GpuArch, cached, needed, ratios) == "gpu_arch: cached "@
            + text::quoted(cached.gpu_arch@) + " but need "@ + text::quoted(needed.gpu_arch@),
        difference_text(Field::RocmVersion, cached, needed, ratios) == "rocm_version: cached "@
            + text::quoted(cached.rocm_version@) + " but need "@ + text::quoted(
            needed.rocm_version@,
        ),
{
    reveal_strlit(": cached ");
    reveal_strlit("source_sha256");
    reveal_strlit("source_sha256: cached ");
    reveal_strlit("backbone");
    reveal_strlit("backbone: cached ");
    reveal_strlit("gpu_arch");
    reveal_strlit("gpu_arch: cached ");
    reveal_strlit("rocm_version");
    reveal_strlit("rocm_version: cached ");
    assert("source_sha256"@ + ": cached "@ =~= "source_sha256: cached "@);
    assert("backbone"@ + ": cached "@ =~= "backbone: cached "@);
    assert("gpu_arch"@ + ": cached "@ =~= "gpu_arch: cached "@);
    assert("rocm_version"@ + ": cached "@ =~= "rocm_version: cached "@);
}

/// The line for a field that is a number names the field, and gives first what
/// is cached, then what is needed.
pub proof fn law_number_lines(cached: &Manifest, needed: &Manifest, ratios: (Seq<char>, Seq<char>))
    ensures
        difference_text(Field::Width, cached, needed, ratios) == "width: cached "@ + text::digits(
            cached.width as nat,
        ) + " but need "@ + text::digits(needed.width as nat),
        difference_text(Field::Height, cached, needed, ratios) == "height: cached "@ + text::digits(
            cached.height as nat,
        ) + " but need "@ + text::digits(needed.height as nat),
        difference_text(Field::Ratio, cached, needed, ratios) == "ratio: cached "@ + ratios.0
            + " but need "@ + ratios.1,
{
    reveal_strlit(": cached ");
    reveal_strlit("width");
    reveal_strlit("width: cached ");
    reveal_strlit("height");
    reveal_strlit("height: cached ");
    reveal_strlit("ratio");
    reveal_strlit("ratio: cached ");
    assert("width"@ + ": cached "@ =~= "width: cached "@);
    assert("height"@ + ": cached "@ =~= "height: cached "@);
    assert("ratio"@ + ": cached "@ =~= "ratio: cached "@);
}

/// A run that takes source, size and ratio from the cache is refused exactly
/// where the backbone, the GPU or the ROCm version has changed.
pub proof fn law_only_the_setup_can_be_stale(cached: &Manifest, needed: &Manifest)
    requires
        needed.source_sha256@ == cached.source_sha256@,
        needed.width == cached.width,
        needed.height == cached.height,
        needed.ratio == cached.ratio,
    ensures
        cached.differences(needed).len() == 0 <==> needed.backbone@ == cached.backbone@
            && needed.gpu_arch@ == cached.gpu_arch@ && needed.rocm_version@
            == cached.rocm_version@,
{
    lemma_same_ratio(cached.ratio);
    let differing = |field: Field| cached.differs_in(needed, field);
    let order = reported_order();
    if order.filter(differing).len() > 0 {
        order.lemma_filter_pred(differing, 0);
    }
    law_every_difference_is_reported(cached, needed, Field::Backbone);
    law_every_difference_is_reported(cached, needed, Field::GpuArch);
    law_every_difference_is_reported(cached, needed, Field::RocmVersion);
}

/// A cache is refused exactly where a field differs, and every such field is
/// reported.
pub proof fn law_every_difference_is_reported(cached: &Manifest, needed: &Manifest, field: Field)
    ensures
        cached.differences(needed).contains(field) <==> cached.differs_in(needed, field),
{
    let differing = |field: Field| cached.differs_in(needed, field);
    let order = reported_order();
    let at: int = match field {
        Field::SourceSha256 => 0,
        Field::Backbone => 1,
        Field::Width => 2,
        Field::Height => 3,
        Field::GpuArch => 4,
        Field::RocmVersion => 5,
        Field::Ratio => 6,
    };
    assert(order[at] == field);
    if cached.differs_in(needed, field) {
        order.lemma_filter_contains(differing, at);
    }
    if order.filter(differing).contains(field) {
        let i = choose|i: int|
            0 <= i < order.filter(differing).len() && order.filter(differing)[i] == field;
        order.lemma_filter_pred(differing, i);
    }
}

} // verus!
