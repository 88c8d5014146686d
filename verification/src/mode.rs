//! Monitor modes as reported by the compositor.
use vstd::prelude::*;
use crate::text::{int_text, push_char, push_int, push_str};
use crate::units::{
    abs_int, approx, approx_eq, distance, REFRESH_EPS, SCALE_EPS, SCALE_SNAP_RANGE,
};

verus! {

/// Unrecognized compositor properties, kept (stringified) for diagnostics:
/// property name and rendering. Parsing keeps one entry per name when the
/// compositor sends each property once (`parse::lemma_extras_keys_unique`).
pub type ExtraProps = Vec<(String, String)>;

/// A copy of a property list.
pub fn clone_extra(v: &ExtraProps) -> (r: ExtraProps)
    ensures
        r@ == v@,
{
    let mut out: ExtraProps = Vec::new();
    let mut i: usize = 0;
    while i < v.len()
        invariant
            i <= v@.len(),
            out@ == v@.subrange(0, i as int),
        decreases v@.len() - i,
    {
        let (a, b) = &v[i];
        out.push((a.clone(), b.clone()));
        i += 1;
        assert(out@ =~= v@.subrange(0, i as int));
    }
    assert(out@ =~= v@);
    out
}

/// A copy of an optional string.
pub fn clone_opt_string(v: &Option<String>) -> (r: Option<String>)
    ensures
        r == *v,
{
    match v {
        Some(s) => Some(s.clone()),
        None => None,
    }
}

/// A copy of a list of fixed-point values.
pub fn clone_i64s(v: &Vec<i64>) -> (r: Vec<i64>)
    ensures
        r@ == v@,
{
    let mut out: Vec<i64> = Vec::new();
    let mut i: usize = 0;
    while i < v.len()
        invariant
            i <= v@.len(),
            out@ == v@.subrange(0, i as int),
        decreases v@.len() - i,
    {
        out.push(v[i]);
        i += 1;
        assert(out@ =~= v@.subrange(0, i as int));
    }
    assert(out@ =~= v@);
    out
}

/// One mode of a physical monitor. Refresh rates are in microhertz, scales
/// in millionths.
#[derive(Debug, PartialEq)]
pub struct MonitorMode {
    /// Mutter's mode ID, e.g. `3840x2160@59.997`; only valid within one
    /// state snapshot.
    pub id: String,
    pub width: i32,
    pub height: i32,
    pub refresh_micro_hz: i64,
    /// Scale Mutter would pick by default for this mode.
    pub preferred_scale: i64,
    /// Scales Mutter supports for this mode.
    pub supported_scales: Vec<i64>,
    pub is_current: bool,
    pub is_preferred: bool,
    pub is_interlaced: bool,
    /// `refresh-rate-mode` where exposed (`"fixed"` or `"variable"`).
    pub refresh_rate_mode: Option<String>,
    pub extra: ExtraProps,
}

/// Mathematical model of a mode: strings as character sequences.
pub ghost struct ModeView {
    pub id: Seq<char>,
    pub width: i32,
    pub height: i32,
    pub refresh: i64,
    pub preferred_scale: i64,
    pub scales: Seq<i64>,
    pub is_current: bool,
    pub is_preferred: bool,
    pub is_interlaced: bool,
    pub refresh_rate_mode: Option<Seq<char>>,
    pub extra: Seq<(Seq<char>, Seq<char>)>,
}

pub open spec fn opt_str_view(o: Option<String>) -> Option<Seq<char>> {
    match o {
        Some(s) => Some(s@),
        None => None,
    }
}

pub open spec fn extra_view(e: Seq<(String, String)>) -> Seq<(Seq<char>, Seq<char>)> {
    e.map_values(|p: (String, String)| (p.0@, p.1@))
}

impl View for MonitorMode {
    type V = ModeView;

    open spec fn view(&self) -> ModeView {
        ModeView {
            id: self.id@,
            width: self.width,
            height: self.height,
            refresh: self.refresh_micro_hz,
            preferred_scale: self.preferred_scale,
            scales: self.supported_scales@,
            is_current: self.is_current,
            is_preferred: self.is_preferred,
            is_interlaced: self.is_interlaced,
            refresh_rate_mode: opt_str_view(self.refresh_rate_mode),
            extra: extra_view(self.extra@),
        }
    }
}

impl Clone for MonitorMode {
    fn clone(&self) -> (r: Self)
        ensures
            r@ == self@,
    {
        MonitorMode {
            id: self.id.clone(),
            width: self.width,
            height: self.height,
            refresh_micro_hz: self.refresh_micro_hz,
            preferred_scale: self.preferred_scale,
            supported_scales: clone_i64s(&self.supported_scales),
            is_current: self.is_current,
            is_preferred: self.is_preferred,
            is_interlaced: self.is_interlaced,
            refresh_rate_mode: clone_opt_string(&self.refresh_rate_mode),
            extra: clone_extra(&self.extra),
        }
    }
}

/// Copies of a list of modes.
pub fn clone_modes(v: &Vec<MonitorMode>) -> (r: Vec<MonitorMode>)
    ensures
        r@.len() == v@.len(),
        forall|i: int| 0 <= i < v@.len() ==> (#[trigger] r@[i])@ == v@[i]@,
{
    let mut out: Vec<MonitorMode> = Vec::new();
    let mut i: usize = 0;
    while i < v.len()
        invariant
            i <= v@.len(),
            out@.len() == i,
            forall|j: int| 0 <= j < i ==> (#[trigger] out@[j])@ == v@[j]@,
        decreases v@.len() - i,
    {
        out.push(v[i].clone());
        i += 1;
    }
    out
}

/// Some scale in `scales` is within `SCALE_EPS` of `scale`.
pub open spec fn scale_listed(scales: Seq<i64>, scale: int) -> bool {
    exists|i: int| 0 <= i < scales.len() && approx(#[trigger] scales[i] as int, scale, SCALE_EPS as int)
}

/// The first supported scale closest to `scale` among those at most
/// `SCALE_SNAP_RANGE` away, looking at the first `n` entries.
pub open spec fn closest_scale_upto(scales: Seq<i64>, scale: int, n: int) -> Option<i64>
    decreases n,
{
    if n <= 0 {
        None
    } else {
        let best = closest_scale_upto(scales, scale, n - 1);
        let s = scales[n - 1];
        let d = abs_int(s - scale);
        if d <= SCALE_SNAP_RANGE && (best is None || d < abs_int(best->0 - scale)) {
            Some(s)
        } else {
            best
        }
    }
}

/// `round(micro_hz / 10_000)`: the rate in hundredths of a hertz.
pub open spec fn centi_hz(micro_hz: int) -> nat {
    ((abs_int(micro_hz) + 5_000) / 10_000) as nat
}

/// Two-digit zero-padded rendering of `v < 100`.
pub open spec fn two_digits(v: nat) -> Seq<char> {
    seq![(((v / 10) + 48) as u32) as char, (((v % 10) + 48) as u32) as char]
}

/// `59.94 Hz` style text with two decimals and a thin space.
pub open spec fn refresh_text(micro_hz: int) -> Seq<char> {
    let c = centi_hz(micro_hz);
    (if micro_hz < 0 {
        "-"@
    } else {
        ""@
    }) + int_text((c / 100) as int) + "."@ + two_digits(c % 100) + "\u{2009}Hz"@
}

/// Percentage of a scale, truncated toward zero (`1.75` → `175`).
pub open spec fn scale_percent(scale: int) -> int {
    if scale >= 0 {
        scale / 10_000
    } else {
        -((-scale) / 10_000)
    }
}

/// Label of the first common aspect ratio that `width∶height` equals.
pub open spec fn aspect_label(width: int, height: int) -> Option<Seq<char>> {
    if width <= 0 || height <= 0 {
        None
    } else if width * 9 == height * 16 {
        Some("16∶9"@)
    } else if width * 10 == height * 16 {
        Some("16∶10"@)
    } else if width * 9 == height * 21 {
        Some("21∶9"@)
    } else if width * 9 == height * 32 {
        Some("32∶9"@)
    } else if width * 3 == height * 4 {
        Some("4∶3"@)
    } else if width * 4 == height * 5 {
        Some("5∶4"@)
    } else if width * 2 == height * 3 {
        Some("3∶2"@)
    } else if width * 1 == height * 1 {
        Some("1∶1"@)
    } else if width * 3 == height * 5 {
        Some("5∶3"@)
    } else if width * 5 == height * 9 {
        Some("9∶5"@)
    } else {
        None
    }
}

impl MonitorMode {
    pub fn resolution(&self) -> (r: (i32, i32))
        ensures
            r == (self.width, self.height),
    {
        (self.width, self.height)
    }

    pub fn area(&self) -> (r: i64)
        ensures
            r == self.width * self.height,
    {
        let w = self.width as i64;
        let h = self.height as i64;
        proof {
            lemma_i32_product(w as int, h as int);
        }
        w * h
    }

    /// Whether `scale` is one of the supported scales for this mode.
    pub fn supports_scale(&self, scale: i64) -> (r: bool)
        ensures
            r == scale_listed(self.supported_scales@, scale as int),
    {
        let mut i: usize = 0;
        while i < self.supported_scales.len()
            invariant
                i <= self.supported_scales@.len(),
                forall|j: int|
                    0 <= j < i ==> !approx(
                        #[trigger] self.supported_scales@[j] as int,
                        scale as int,
                        SCALE_EPS as int,
                    ),
            decreases self.supported_scales@.len() - i,
        {
            if approx_eq(self.supported_scales[i], scale, SCALE_EPS) {
                return true;
            }
            i += 1;
        }
        false
    }

    /// The closest supported scale within `0.1` (the rule Mutter's gdctl
    /// applies to user-specified scales); the first of equally close ones.
    pub fn closest_supported_scale(&self, scale: i64) -> (r: Option<i64>)
        ensures
            r == closest_scale_upto(
                self.supported_scales@,
                scale as int,
                self.supported_scales@.len() as int,
            ),
    {
        let mut best: Option<i64> = None;
        let mut i: usize = 0;
        while i < self.supported_scales.len()
            invariant
                i <= self.supported_scales@.len(),
                best == closest_scale_upto(self.supported_scales@, scale as int, i as int),
            decreases self.supported_scales@.len() - i,
        {
            let s = self.supported_scales[i];
            let d = distance(s, scale);
            if d <= SCALE_SNAP_RANGE as i128 {
                match best {
                    None => {
                        best = Some(s);
                    },
                    Some(b) => {
                        if d < distance(b, scale) {
                            best = Some(s);
                        }
                    },
                }
            }
            i += 1;
        }
        best
    }
}

/// The product of two `i32` values fits in an `i64`.
pub proof fn lemma_i32_product(a: int, b: int)
    requires
        i32::MIN <= a <= i32::MAX,
        i32::MIN <= b <= i32::MAX,
    ensures
        i64::MIN <= a * b <= i64::MAX,
{
    assert(-0x8000_0000 * 0x8000_0000 <= a * b <= 0x8000_0000 * 0x8000_0000) by (nonlinear_arith)
        requires
            -0x8000_0000 <= a <= 0x8000_0000,
            -0x8000_0000 <= b <= 0x8000_0000,
    ;
}

/// Are two advertised refresh rates the same rate?
pub fn refresh_eq(a: i64, b: i64) -> (r: bool)
    ensures
        r == approx(a as int, b as int, REFRESH_EPS as int),
{
    approx_eq(a, b, REFRESH_EPS)
}

/// Formats a refresh rate the way GNOME Settings does (two decimals:
/// `60.00 Hz`, `59.94 Hz`). The rate is exact in microhertz and is rounded
/// half away from zero from that exact value; a rate held as a binary
/// float can land on the other side of a half-way point.
pub fn format_refresh(micro_hz: i64) -> (r: String)
    ensures
        r@ == refresh_text(micro_hz as int),
{
    let m: i128 = if micro_hz < 0 {
        -(micro_hz as i128)
    } else {
        micro_hz as i128
    };
    let c: i128 = (m + 5_000) / 10_000;
    let mut s = String::new();
    if micro_hz < 0 {
        push_str(&mut s, "-");
    }
    let whole: i64 = (c / 100) as i64;
    let frac: i64 = (c % 100) as i64;
    push_int(&mut s, whole);
    push_str(&mut s, ".");
    push_char(&mut s, digit_char_exec((frac / 10) as u32));
    push_char(&mut s, digit_char_exec((frac % 10) as u32));
    push_str(&mut s, "\u{2009}Hz");
    proof {
        let cc = centi_hz(micro_hz as int);
        assert(c == cc);
        assert(two_digits(cc % 100) =~= seq![digit_spec((frac / 10) as nat), digit_spec((frac % 10) as nat)]);
        reveal_strlit("");
        assert(s@ =~= refresh_text(micro_hz as int));
    }
    s
}

pub open spec fn digit_spec(d: nat) -> char {
    ((d + 48) as u32) as char
}

pub fn digit_char_exec(d: u32) -> (r: char)
    requires
        d < 10,
    ensures
        r == digit_spec(d as nat),
{
    let b: u8 = (d + 48) as u8;
    b as char
}

/// Formats a scale as GNOME Settings does — percentage, truncated:
/// `1.75` → `175 %`. The scale is exact in millionths, so `1.15` gives
/// `115 %`; the same scale held as a binary float (`1.1499999…`) would
/// truncate to `114 %`.
pub fn format_scale_percent(scale: i64) -> (r: String)
    ensures
        r@ == int_text(scale_percent(scale as int)) + " %"@,
{
    let p: i64 = if scale >= 0 {
        scale / 10_000
    } else {
        -((-(scale as i128) / 10_000) as i64)
    };
    let mut s = String::new();
    push_int(&mut s, p);
    push_str(&mut s, " %");
    assert(s@ =~= int_text(scale_percent(scale as int)) + " %"@);
    s
}

/// Formats a mode as `3840 × 2160`.
pub fn format_resolution(width: i32, height: i32) -> (r: String)
    ensures
        r@ == int_text(width as int) + " × "@ + int_text(height as int),
{
    let mut s = String::new();
    push_int(&mut s, width as i64);
    push_str(&mut s, " × ");
    push_int(&mut s, height as i64);
    assert(s@ =~= int_text(width as int) + " × "@ + int_text(height as int));
    s
}

/// Human aspect-ratio label for common ratios (as GNOME Settings shows).
pub fn aspect_ratio_label(width: i32, height: i32) -> (r: Option<&'static str>)
    ensures
        match aspect_label(width as int, height as int) {
            None => r is None,
            Some(l) => r is Some && r->0@ == l,
        },
{
    if width <= 0 || height <= 0 {
        return None;
    }
    let w = width as i64;
    let h = height as i64;
    if w * 9 == h * 16 {
        Some("16∶9")
    } else if w * 10 == h * 16 {
        Some("16∶10")
    } else if w * 9 == h * 21 {
        Some("21∶9")
    } else if w * 9 == h * 32 {
        Some("32∶9")
    } else if w * 3 == h * 4 {
        Some("4∶3")
    } else if w * 4 == h * 5 {
        Some("5∶4")
    } else if w * 2 == h * 3 {
        Some("3∶2")
    } else if w * 1 == h * 1 {
        Some("1∶1")
    } else if w * 3 == h * 5 {
        Some("5∶3")
    } else if w * 5 == h * 9 {
        Some("9∶5")
    } else {
        None
    }
}

} // verus!
