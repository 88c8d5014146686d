//! Physical monitors and their capabilities.
use vstd::prelude::*;
use crate::identity::{serial_groupable, str_eq, synthetic_serial, MonitorIdentity};
use crate::mode::{lemma_i32_product, clone_extra, clone_modes, clone_opt_string, extra_view, opt_str_view, ExtraProps, ModeView, MonitorMode};
use crate::seqs::{first_where, is_first, lemma_first_where_at, lemma_first_where_none};
use crate::text::{chars_of, contains_seq, contains_str, lower_chars, lower_seq, upper_chars, upper_seq};

verus! {

/// Color modes of `org.gnome.Mutter.DisplayConfig`.
#[derive(Debug, Clone, Copy, PartialEq, Eq, Structural, Hash)]
pub enum ColorMode {
    Default,
    Bt2100,
    SdrNative,
}

pub open spec fn color_mode_wire(c: ColorMode) -> u32 {
    match c {
        ColorMode::Default => 0,
        ColorMode::Bt2100 => 1,
        ColorMode::SdrNative => 2,
    }
}

pub open spec fn color_mode_from_wire(v: u32) -> Option<ColorMode> {
    if v == 0 {
        Some(ColorMode::Default)
    } else if v == 1 {
        Some(ColorMode::Bt2100)
    } else if v == 2 {
        Some(ColorMode::SdrNative)
    } else {
        None
    }
}

pub open spec fn color_mode_label(c: ColorMode) -> Seq<char> {
    match c {
        ColorMode::Default => "Standard"@,
        ColorMode::Bt2100 => "HDR (BT.2100)"@,
        ColorMode::SdrNative => "SDR (native gamut)"@,
    }
}

impl ColorMode {
    pub fn as_u32(self) -> (r: u32)
        ensures
            r == color_mode_wire(self),
    {
        match self {
            ColorMode::Default => 0,
            ColorMode::Bt2100 => 1,
            ColorMode::SdrNative => 2,
        }
    }

    pub fn from_u32(v: u32) -> (r: Option<Self>)
        ensures
            r == color_mode_from_wire(v),
    {
        match v {
            0 => Some(ColorMode::Default),
            1 => Some(ColorMode::Bt2100),
            2 => Some(ColorMode::SdrNative),
            _ => None,
        }
    }

    pub fn label(self) -> (r: &'static str)
        ensures
            r@ == color_mode_label(self),
    {
        match self {
            ColorMode::Default => "Standard",
            ColorMode::Bt2100 => "HDR (BT.2100)",
            ColorMode::SdrNative => "SDR (native gamut)",
        }
    }
}

/// RGB range values (1-based on the wire).
#[derive(Debug, Clone, Copy, PartialEq, Eq, Structural, Hash)]
pub enum RgbRange {
    Auto,
    Full,
    Limited,
}

pub open spec fn rgb_range_wire(c: RgbRange) -> u32 {
    match c {
        RgbRange::Auto => 1,
        RgbRange::Full => 2,
        RgbRange::Limited => 3,
    }
}

pub open spec fn rgb_range_from_wire(v: u32) -> Option<RgbRange> {
    if v == 1 {
        Some(RgbRange::Auto)
    } else if v == 2 {
        Some(RgbRange::Full)
    } else if v == 3 {
        Some(RgbRange::Limited)
    } else {
        None
    }
}

pub open spec fn rgb_range_label(c: RgbRange) -> Seq<char> {
    match c {
        RgbRange::Auto => "Automatic"@,
        RgbRange::Full => "Full"@,
        RgbRange::Limited => "Limited"@,
    }
}

impl RgbRange {
    pub fn as_u32(self) -> (r: u32)
        ensures
            r == rgb_range_wire(self),
    {
        match self {
            RgbRange::Auto => 1,
            RgbRange::Full => 2,
            RgbRange::Limited => 3,
        }
    }

    pub fn from_u32(v: u32) -> (r: Option<Self>)
        ensures
            r == rgb_range_from_wire(v),
    {
        match v {
            1 => Some(RgbRange::Auto),
            2 => Some(RgbRange::Full),
            3 => Some(RgbRange::Limited),
            _ => None,
        }
    }

    pub fn label(self) -> (r: &'static str)
        ensures
            r@ == rgb_range_label(self),
    {
        match self {
            RgbRange::Auto => "Automatic",
            RgbRange::Full => "Full",
            RgbRange::Limited => "Limited",
        }
    }
}

/// Wire values of color modes and RGB ranges round-trip.
pub proof fn lemma_wire_enums_roundtrip(c: ColorMode, g: RgbRange, v: u32)
    ensures
        color_mode_from_wire(color_mode_wire(c)) == Some(c),
        rgb_range_from_wire(rgb_range_wire(g)) == Some(g),
        color_mode_from_wire(v) matches Some(x) ==> color_mode_wire(x) == v,
        rgb_range_from_wire(v) matches Some(x) ==> rgb_range_wire(x) == v,
{
}

/// A physical monitor as reported by the compositor.
#[derive(Debug, PartialEq)]
pub struct PhysicalMonitor {
    pub identity: MonitorIdentity,
    /// Mutter's `display-name`, e.g. `LG Electronics 27"`.
    pub display_name: Option<String>,
    pub modes: Vec<MonitorMode>,
    pub is_builtin: bool,
    pub is_underscanning: bool,
    /// The monitor supports underscanning at all.
    pub supports_underscanning: bool,
    pub is_for_lease: bool,
    pub color_mode: Option<ColorMode>,
    pub supported_color_modes: Vec<ColorMode>,
    pub rgb_range: Option<RgbRange>,
    /// Present when the monitor supports VRR (minimum refresh).
    pub min_refresh_rate: Option<i32>,
    /// From EDID via sysfs; best effort.
    pub physical_size_mm: Option<(i32, i32)>,
    pub extra: ExtraProps,
}

/// Mathematical model of a physical monitor.
pub ghost struct MonitorView {
    pub identity: MonitorIdentity,
    pub display_name: Option<Seq<char>>,
    pub modes: Seq<ModeView>,
    pub is_builtin: bool,
    pub is_underscanning: bool,
    pub supports_underscanning: bool,
    pub is_for_lease: bool,
    pub color_mode: Option<ColorMode>,
    pub supported_color_modes: Seq<ColorMode>,
    pub rgb_range: Option<RgbRange>,
    pub min_refresh_rate: Option<i32>,
    pub physical_size_mm: Option<(i32, i32)>,
    pub extra: Seq<(Seq<char>, Seq<char>)>,
}

pub open spec fn modes_view(m: Seq<MonitorMode>) -> Seq<ModeView> {
    m.map_values(|x: MonitorMode| x@)
}

impl View for PhysicalMonitor {
    type V = MonitorView;

    open spec fn view(&self) -> MonitorView {
        MonitorView {
            identity: self.identity,
            display_name: opt_str_view(self.display_name),
            modes: modes_view(self.modes@),
            is_builtin: self.is_builtin,
            is_underscanning: self.is_underscanning,
            supports_underscanning: self.supports_underscanning,
            is_for_lease: self.is_for_lease,
            color_mode: self.color_mode,
            supported_color_modes: self.supported_color_modes@,
            rgb_range: self.rgb_range,
            min_refresh_rate: self.min_refresh_rate,
            physical_size_mm: self.physical_size_mm,
            extra: extra_view(self.extra@),
        }
    }
}

fn clone_color_modes(v: &Vec<ColorMode>) -> (r: Vec<ColorMode>)
    ensures
        r@ == v@,
{
    let mut out: Vec<ColorMode> = Vec::new();
    let mut i: usize = 0;
    while i < v.len()
        invariant
            i <= v@.len(),
            out@ == v@.subrange(0, i as int),
        decreases v@.len() - i,
    {
        out.push(v[i]);
        i += 1;
        assert(out@ =~= v@.subrange(0, i as int));
    }
    assert(out@ =~= v@);
    out
}

impl Clone for PhysicalMonitor {
    fn clone(&self) -> (r: Self)
        ensures
            r@ == self@,
    {
        let modes = clone_modes(&self.modes);
        assert(modes_view(modes@) =~= modes_view(self.modes@));
        PhysicalMonitor {
            identity: self.identity.clone(),
            display_name: clone_opt_string(&self.display_name),
            modes,
            is_builtin: self.is_builtin,
            is_underscanning: self.is_underscanning,
            supports_underscanning: self.supports_underscanning,
            is_for_lease: self.is_for_lease,
            color_mode: self.color_mode,
            supported_color_modes: clone_color_modes(&self.supported_color_modes),
            rgb_range: self.rgb_range,
            min_refresh_rate: self.min_refresh_rate,
            physical_size_mm: self.physical_size_mm,
            extra: clone_extra(&self.extra),
        }
    }
}

/// Mode `a` is preferred to mode `b` as the best mode at a resolution:
/// progressive before interlaced, then higher refresh.
pub open spec fn better_mode(a: ModeView, b: ModeView) -> bool {
    (!a.is_interlaced && b.is_interlaced) || (a.is_interlaced == b.is_interlaced && a.refresh
        > b.refresh)
}

/// Index of the best mode at `width`×`height` among the first `n` modes (the
/// first of equally good ones).
pub open spec fn best_mode_upto(modes: Seq<ModeView>, width: i32, height: i32, n: int) -> Option<
    int,
>
    decreases n,
{
    if n <= 0 {
        None
    } else {
        let best = best_mode_upto(modes, width, height, n - 1);
        let m = modes[n - 1];
        if m.width == width && m.height == height && (best is None || better_mode(
            m,
            modes[best->0],
        )) {
            Some(n - 1)
        } else {
            best
        }
    }
}

/// Number of entries in `order` whose mode refreshes at least as fast as
/// `refresh`.
pub open spec fn count_at_least(modes: Seq<ModeView>, order: Seq<int>, refresh: i64) -> nat
    decreases order.len(),
{
    if order.len() == 0 {
        0
    } else {
        count_at_least(modes, order.drop_last(), refresh) + if modes[order.last()].refresh
            >= refresh {
            1nat
        } else {
            0nat
        }
    }
}

/// Some entry of `order` refreshes at exactly `refresh`.
pub open spec fn has_rate(modes: Seq<ModeView>, order: Seq<int>, refresh: i64) -> bool
    decreases order.len(),
{
    if order.len() == 0 {
        false
    } else {
        has_rate(modes, order.drop_last(), refresh) || modes[order.last()].refresh == refresh
    }
}

/// Indices of the progressive modes at `width`×`height` among the first `n`,
/// one per refresh rate (the first listed), by descending refresh rate.
pub open spec fn rates_order_upto(modes: Seq<ModeView>, width: i32, height: i32, n: int) -> Seq<
    int,
>
    decreases n,
{
    if n <= 0 {
        Seq::empty()
    } else {
        let prev = rates_order_upto(modes, width, height, n - 1);
        let m = modes[n - 1];
        if m.width == width && m.height == height && !m.is_interlaced && !has_rate(modes, prev, m.refresh) {
            let pos = count_at_least(modes, prev, m.refresh) as int;
            prev.insert(pos, n - 1)
        } else {
            prev
        }
    }
}

/// The mode is progressive and of size `width`×`height`.
pub open spec fn rate_fits(m: ModeView, width: i32, height: i32) -> bool {
    m.width == width && m.height == height && !m.is_interlaced
}

/// `order` lists strictly decreasing refresh rates.
pub open spec fn strictly_descending(modes: Seq<ModeView>, order: Seq<int>) -> bool {
    forall|i: int, j: int|
        0 <= i < j < order.len() ==> modes[#[trigger] order[i]].refresh > modes[#[trigger] order[j]].refresh
}

/// In a strictly descending list, the count of rates at least `x` splits it
/// into the rates at least `x` and those below.
proof fn lemma_count_split(modes: Seq<ModeView>, order: Seq<int>, x: i64)
    requires
        strictly_descending(modes, order),
    ensures
        count_at_least(modes, order, x) <= order.len(),
        forall|k: int| 0 <= k < count_at_least(modes, order, x) ==> modes[#[trigger] order[k]].refresh >= x,
        forall|k: int|
            count_at_least(modes, order, x) <= k < order.len() ==> modes[#[trigger] order[k]].refresh < x,
    decreases order.len(),
{
    if order.len() > 0 {
        let p = order.drop_last();
        assert(strictly_descending(modes, p)) by {
            assert forall|i: int, j: int| 0 <= i < j < p.len() implies modes[#[trigger] p[i]].refresh
                > modes[#[trigger] p[j]].refresh by {
                assert(p[i] == order[i] && p[j] == order[j]);
            }
        }
        lemma_count_split(modes, p, x);
        let c = count_at_least(modes, p, x) as int;
        if modes[order.last()].refresh >= x && c < p.len() {
            assert(p[c] == order[c]);
            assert(modes[order[c]].refresh > modes[order[order.len() - 1]].refresh);
        }
        assert forall|k: int| 0 <= k < p.len() implies p[k] == order[k] by {}
    }
}

/// `has_rate` says that some listed entry has the rate.
proof fn lemma_has_rate(modes: Seq<ModeView>, order: Seq<int>, x: i64)
    ensures
        has_rate(modes, order, x) <==> exists|k: int| 0 <= k < order.len() && modes[#[trigger] order[k]].refresh == x,
    decreases order.len(),
{
    if order.len() > 0 {
        let p = order.drop_last();
        lemma_has_rate(modes, p, x);
        if has_rate(modes, p, x) {
            let k = choose|k: int| 0 <= k < p.len() && modes[#[trigger] p[k]].refresh == x;
            assert(order[k] == p[k]);
        }
        if exists|k: int| 0 <= k < order.len() && modes[#[trigger] order[k]].refresh == x {
            let k = choose|k: int| 0 <= k < order.len() && modes[#[trigger] order[k]].refresh == x;
            if k < p.len() {
                assert(p[k] == order[k]);
            }
        }
    }
}

/// Every entry of `o` is one of the first `n` modes, progressive and of the size.
#[verifier::opaque]
pub open spec fn rates_fit(modes: Seq<ModeView>, width: i32, height: i32, n: int, o: Seq<int>) -> bool {
    forall|k: int| 0 <= k < o.len() ==> 0 <= #[trigger] o[k] < n && rate_fits(modes[o[k]], width, height)
}

/// Every rate offered by such a mode among the first `n` is in `o`.
#[verifier::opaque]
pub open spec fn rates_cover(modes: Seq<ModeView>, width: i32, height: i32, n: int, o: Seq<int>) -> bool {
    forall|t: int|
        0 <= t < n && rate_fits(#[trigger] modes[t], width, height) ==> exists|k: int|
            0 <= k < o.len() && modes[#[trigger] o[k]].refresh == modes[t].refresh
}

/// Each entry of `o` is the first listed mode of its rate.
#[verifier::opaque]
pub open spec fn rates_first(modes: Seq<ModeView>, width: i32, height: i32, o: Seq<int>) -> bool {
    forall|k: int, t: int|
        0 <= k < o.len() && 0 <= t < #[trigger] o[k] && rate_fits(#[trigger] modes[t], width, height)
            ==> modes[t].refresh != modes[o[k]].refresh
}

/// What the refresh list `o` over the first `n` modes satisfies: only
/// progressive modes of the size, strictly descending rates, every rate
/// such a mode offers, and the first listed mode of each rate.
pub open spec fn rates_inv(modes: Seq<ModeView>, width: i32, height: i32, n: int, o: Seq<int>) -> bool {
    &&& rates_fit(modes, width, height, n, o)
    &&& strictly_descending(modes, o)
    &&& rates_cover(modes, width, height, n, o)
    &&& rates_first(modes, width, height, o)
}

proof fn lemma_insert_fit(modes: Seq<ModeView>, width: i32, height: i32, n: int, prev: Seq<int>, pos: int)
    requires
        0 < n <= modes.len(),
        0 <= pos <= prev.len(),
        rates_fit(modes, width, height, n - 1, prev),
        rate_fits(modes[n - 1], width, height),
    ensures
        rates_fit(modes, width, height, n, prev.insert(pos, n - 1)),
{
    reveal(rates_fit);
    let o = prev.insert(pos, n - 1);
    assert forall|k: int| 0 <= k < o.len() implies 0 <= #[trigger] o[k] < n && rate_fits(modes[o[k]], width, height) by {
        if k > pos {
            assert(o[k] == prev[k - 1]);
        } else if k < pos {
            assert(o[k] == prev[k]);
        }
    }
}

proof fn lemma_insert_descending(modes: Seq<ModeView>, n: int, prev: Seq<int>)
    requires
        0 < n <= modes.len(),
        strictly_descending(modes, prev),
        !has_rate(modes, prev, modes[n - 1].refresh),
    ensures
        strictly_descending(modes, prev.insert(count_at_least(modes, prev, modes[n - 1].refresh) as int, n - 1)),
{
    let m = modes[n - 1];
    let pos = count_at_least(modes, prev, m.refresh) as int;
    let o = prev.insert(pos, n - 1);
    lemma_has_rate(modes, prev, m.refresh);
    lemma_count_split(modes, prev, m.refresh);
    assert forall|i: int, j: int| 0 <= i < j < o.len() implies modes[#[trigger] o[i]].refresh
        > modes[#[trigger] o[j]].refresh by {
        if i < pos {
            assert(o[i] == prev[i]);
            assert(modes[prev[i]].refresh != m.refresh);
        }
        if i > pos {
            assert(o[i] == prev[i - 1]);
        }
        if j < pos {
            assert(o[j] == prev[j]);
        }
        if j > pos {
            assert(o[j] == prev[j - 1]);
        }
    }
}

proof fn lemma_insert_cover(modes: Seq<ModeView>, width: i32, height: i32, n: int, prev: Seq<int>, pos: int)
    requires
        0 < n <= modes.len(),
        0 <= pos <= prev.len(),
        rates_cover(modes, width, height, n - 1, prev),
    ensures
        rates_cover(modes, width, height, n, prev.insert(pos, n - 1)),
{
    reveal(rates_cover);
    let o = prev.insert(pos, n - 1);
    assert forall|t: int| 0 <= t < n && rate_fits(#[trigger] modes[t], width, height) implies exists|k: int|
        0 <= k < o.len() && modes[#[trigger] o[k]].refresh == modes[t].refresh by {
        if t == n - 1 {
            assert(o[pos] == n - 1);
        } else {
            let k = choose|k: int| 0 <= k < prev.len() && modes[#[trigger] prev[k]].refresh == modes[t].refresh;
            if k < pos {
                assert(o[k] == prev[k]);
            } else {
                assert(o[k + 1] == prev[k]);
            }
        }
    }
}

proof fn lemma_insert_first(modes: Seq<ModeView>, width: i32, height: i32, n: int, prev: Seq<int>, pos: int)
    requires
        0 < n <= modes.len(),
        0 <= pos <= prev.len(),
        rates_first(modes, width, height, prev),
        rates_cover(modes, width, height, n - 1, prev),
        !has_rate(modes, prev, modes[n - 1].refresh),
    ensures
        rates_first(modes, width, height, prev.insert(pos, n - 1)),
{
    reveal(rates_first);
    reveal(rates_cover);
    let m = modes[n - 1];
    let o = prev.insert(pos, n - 1);
    lemma_has_rate(modes, prev, m.refresh);
    assert forall|k: int, t: int|
        0 <= k < o.len() && 0 <= t < #[trigger] o[k] && rate_fits(#[trigger] modes[t], width, height)
            implies modes[t].refresh != modes[o[k]].refresh by {
        if k == pos {
            if modes[t].refresh == m.refresh {
                let kk = choose|kk: int| 0 <= kk < prev.len() && modes[#[trigger] prev[kk]].refresh == modes[t].refresh;
            }
        } else if k < pos {
            assert(o[k] == prev[k]);
        } else {
            assert(o[k] == prev[k - 1]);
        }
    }
}

proof fn lemma_skip_keeps(modes: Seq<ModeView>, width: i32, height: i32, n: int, prev: Seq<int>)
    requires
        0 < n <= modes.len(),
        rates_inv(modes, width, height, n - 1, prev),
        !rate_fits(modes[n - 1], width, height) || has_rate(modes, prev, modes[n - 1].refresh),
    ensures
        rates_inv(modes, width, height, n, prev),
{
    assert(rates_fit(modes, width, height, n, prev)) by {
        reveal(rates_fit);
    }
    assert(rates_cover(modes, width, height, n, prev)) by {
        reveal(rates_cover);
        lemma_has_rate(modes, prev, modes[n - 1].refresh);
        assert forall|t: int| 0 <= t < n && rate_fits(#[trigger] modes[t], width, height) implies exists|k: int|
            0 <= k < prev.len() && modes[#[trigger] prev[k]].refresh == modes[t].refresh by {
            if t < n - 1 {
            }
        }
    }
}

/// The refresh list at a size holds only progressive modes of that size,
/// strictly descending, covers every rate such a mode offers, and keeps
/// the first listed mode of each rate.
pub proof fn lemma_rates_order(modes: Seq<ModeView>, width: i32, height: i32, n: int)
    requires
        0 <= n <= modes.len(),
    ensures
        rates_inv(modes, width, height, n, rates_order_upto(modes, width, height, n)),
    decreases n,
{
    if n == 0 {
        reveal(rates_fit);
        reveal(rates_cover);
        reveal(rates_first);
    } else {
        lemma_rates_order(modes, width, height, n - 1);
        let prev = rates_order_upto(modes, width, height, n - 1);
        let m = modes[n - 1];
        if rate_fits(m, width, height) && !has_rate(modes, prev, m.refresh) {
            let pos = count_at_least(modes, prev, m.refresh) as int;
            lemma_count_split(modes, prev, m.refresh);
            lemma_insert_fit(modes, width, height, n, prev, pos);
            lemma_insert_descending(modes, n, prev);
            lemma_insert_cover(modes, width, height, n, prev, pos);
            lemma_insert_first(modes, width, height, n, prev, pos);
        } else {
            lemma_skip_keeps(modes, width, height, n, prev);
        }
    }
}

/// Sort key of resolutions: larger area first, then wider first.
pub open spec fn res_before(a: (i32, i32), b: (i32, i32)) -> bool {
    let aa = a.0 * a.1;
    let ba = b.0 * b.1;
    aa > ba || (aa == ba && a.0 > b.0)
}

/// Number of entries of `res` that do not sort after `r`: with an equal
/// sort key the entry seen first stays first.
pub open spec fn count_before(res: Seq<(i32, i32)>, r: (i32, i32)) -> nat
    decreases res.len(),
{
    if res.len() == 0 {
        0
    } else {
        count_before(res.drop_last(), r) + if !res_before(r, res.last()) {
            1nat
        } else {
            0nat
        }
    }
}

/// Distinct progressive resolutions of the first `n` modes, largest first
/// (equal sort keys in the order first seen).
pub open spec fn resolutions_upto(modes: Seq<ModeView>, n: int) -> Seq<(i32, i32)>
    decreases n,
{
    if n <= 0 {
        Seq::empty()
    } else {
        let prev = resolutions_upto(modes, n - 1);
        let m = modes[n - 1];
        let r = (m.width, m.height);
        if m.is_interlaced || prev.contains(r) {
            prev
        } else {
            prev.insert(count_before(prev, r) as int, r)
        }
    }
}

/// `res` is ordered: no entry sorts before an earlier one.
pub open spec fn res_sorted(res: Seq<(i32, i32)>) -> bool {
    forall|i: int, j: int| 0 <= i < j < res.len() ==> !res_before(#[trigger] res[j], #[trigger] res[i])
}

/// The sizes of the progressive modes among the first `n` are exactly the
/// entries of `res`.
#[verifier::opaque]
pub open spec fn res_cover(modes: Seq<ModeView>, n: int, res: Seq<(i32, i32)>) -> bool {
    &&& forall|t: int| 0 <= t < n && !(#[trigger] modes[t]).is_interlaced ==> res.contains((modes[t].width, modes[t].height))
    &&& forall|k: int| 0 <= k < res.len() ==> exists|t: int|
        0 <= t < n && !(#[trigger] modes[t]).is_interlaced && (modes[t].width, modes[t].height) == #[trigger] res[k]
}

/// In an ordered list, the entries not sorting after `r` come first.
proof fn lemma_count_before_split(res: Seq<(i32, i32)>, r: (i32, i32))
    requires
        res_sorted(res),
    ensures
        count_before(res, r) <= res.len(),
        forall|k: int| 0 <= k < count_before(res, r) ==> !res_before(r, #[trigger] res[k]),
        forall|k: int| count_before(res, r) <= k < res.len() ==> res_before(r, #[trigger] res[k]),
    decreases res.len(),
{
    if res.len() > 0 {
        let p = res.drop_last();
        assert(res_sorted(p)) by {
            assert forall|i: int, j: int| 0 <= i < j < p.len() implies !res_before(#[trigger] p[j], #[trigger] p[i]) by {
                assert(p[i] == res[i] && p[j] == res[j]);
            }
        }
        lemma_count_before_split(p, r);
        let c = count_before(p, r) as int;
        assert forall|k: int| 0 <= k < p.len() implies p[k] == res[k] by {}
        if !res_before(r, res.last()) && c < p.len() {
            assert(!res_before(res[res.len() - 1], res[c]));
            assert(res_before(r, p[c]));
        }
    }
}

#[verifier::rlimit(30)]
proof fn lemma_res_insert(modes: Seq<ModeView>, n: int, prev: Seq<(i32, i32)>)
    requires
        0 < n <= modes.len(),
        res_sorted(prev),
        prev.no_duplicates(),
        res_cover(modes, n - 1, prev),
        !modes[n - 1].is_interlaced,
        !prev.contains((modes[n - 1].width, modes[n - 1].height)),
    ensures
        ({
            let r = (modes[n - 1].width, modes[n - 1].height);
            let o = prev.insert(count_before(prev, r) as int, r);
            &&& res_sorted(o)
            &&& o.no_duplicates()
            &&& res_cover(modes, n, o)
        }),
{
    let r = (modes[n - 1].width, modes[n - 1].height);
    let c = count_before(prev, r) as int;
    let o = prev.insert(c, r);
    lemma_count_before_split(prev, r);
    assert forall|i: int, j: int| 0 <= i < j < o.len() implies !res_before(#[trigger] o[j], #[trigger] o[i]) by {
        if i < c {
            assert(o[i] == prev[i]);
        }
        if i > c {
            assert(o[i] == prev[i - 1]);
        }
        if j < c {
            assert(o[j] == prev[j]);
        }
        if j > c {
            assert(o[j] == prev[j - 1]);
        }
    }
    assert forall|i: int, j: int| 0 <= i < o.len() && 0 <= j < o.len() && i != j implies o[i] != o[j] by {
        if i != c && j != c {
            let pi = if i < c { i } else { i - 1 };
            let pj = if j < c { j } else { j - 1 };
            assert(o[i] == prev[pi] && o[j] == prev[pj]);
        } else if i == c {
            let pj = if j < c { j } else { j - 1 };
            assert(o[j] == prev[pj]);
        } else {
            let pi = if i < c { i } else { i - 1 };
            assert(o[i] == prev[pi]);
        }
    }
    reveal(res_cover);
    assert forall|t: int| 0 <= t < n && !(#[trigger] modes[t]).is_interlaced implies o.contains(
        (modes[t].width, modes[t].height),
    ) by {
        if t == n - 1 {
            assert(o[c] == r);
        } else {
            let k = choose|k: int| 0 <= k < prev.len() && prev[k] == (modes[t].width, modes[t].height);
            if k < c {
                assert(o[k] == prev[k]);
            } else {
                assert(o[k + 1] == prev[k]);
            }
        }
    }
    assert forall|k: int| 0 <= k < o.len() implies exists|t: int|
        0 <= t < n && !(#[trigger] modes[t]).is_interlaced && (modes[t].width, modes[t].height) == #[trigger] o[k] by {
        if k == c {
            assert((modes[n - 1].width, modes[n - 1].height) == o[k]);
        } else if k < c {
            assert(o[k] == prev[k]);
        } else {
            assert(o[k] == prev[k - 1]);
        }
    }
}

/// The resolution list holds each progressive mode size exactly once, and
/// nothing else, ordered by area then width, largest first.
pub proof fn lemma_resolutions_law(modes: Seq<ModeView>, n: int)
    requires
        0 <= n <= modes.len(),
    ensures
        res_sorted(resolutions_upto(modes, n)),
        resolutions_upto(modes, n).no_duplicates(),
        res_cover(modes, n, resolutions_upto(modes, n)),
    decreases n,
{
    if n == 0 {
        reveal(res_cover);
    } else {
        lemma_resolutions_law(modes, n - 1);
        let prev = resolutions_upto(modes, n - 1);
        let m = modes[n - 1];
        if m.is_interlaced || prev.contains((m.width, m.height)) {
            reveal(res_cover);
            assert forall|t: int| 0 <= t < n && !(#[trigger] modes[t]).is_interlaced implies prev.contains(
                (modes[t].width, modes[t].height),
            ) by {
                if t < n - 1 {
                }
            }
        } else {
            lemma_res_insert(modes, n, prev);
        }
    }
}

/// Trailing ASCII digits of `s`.
pub open spec fn trailing_digits(s: Seq<char>) -> Seq<char>
    decreases s.len(),
{
    if s.len() > 0 && '0' <= s.last() <= '9' {
        trailing_digits(s.drop_last()).push(s.last())
    } else {
        Seq::empty()
    }
}

/// Value of a string of decimal digits.
pub open spec fn digits_value(d: Seq<char>) -> nat
    decreases d.len(),
{
    if d.len() == 0 {
        0
    } else {
        digits_value(d.drop_last()) * 10 + ((d.last() as u32) - 48) as nat
    }
}

/// The claimed diagonal in a `display-name` such as `LTM 5"`: the decimal
/// number right before the first `"`.
pub open spec fn diagonal_inches(name: Seq<char>) -> Option<i32> {
    match first_where(name, |c: char| c == '"') {
        None => None,
        Some(q) => {
            let d = trailing_digits(name.subrange(0, q));
            if d.len() > 0 && digits_value(d) <= i32::MAX {
                Some(digits_value(d) as i32)
            } else {
                None
            }
        },
    }
}

impl MonitorView {
    /// Width of the preferred mode, or 0 without one.
    pub open spec fn native_width(self) -> int {
        match first_where(self.modes, |m: ModeView| m.is_preferred) {
            Some(i) => self.modes[i].width as int,
            None => 0,
        }
    }

    /// The KVM heuristic score (threshold 2).
    pub open spec fn kvm_score(self) -> u32 {
        let vendor = upper_seq(self.identity.vendor@);
        let product = lower_seq(self.identity.product@);
        let a: u32 = if vendor == "LTM"@ || vendor == "LNT"@ {
            2
        } else {
            0
        };
        let b: u32 = if contains_seq(product, "kvm"@) || contains_seq(product, "capture"@)
            || contains_seq(product, "dummy"@) {
            2
        } else {
            0
        };
        let c: u32 = if synthetic_serial(self.identity.serial@) {
            1
        } else {
            0
        };
        let d: u32 = match self.physical_size_mm {
            Some((w_mm, h_mm)) => if w_mm > 0 && w_mm < 200 && h_mm > 0 && self.native_width()
                >= 2560 {
                1
            } else {
                0
            },
            None => match self.display_name {
                Some(name) => match diagonal_inches(name) {
                    Some(inches) => if inches <= 8 && self.native_width() >= 2560 {
                        1
                    } else {
                        0
                    },
                    None => 0,
                },
                None => 0,
            },
        };
        (a + b + c + d) as u32
    }

    pub open spec fn supports_vrr(self) -> bool {
        self.min_refresh_rate is Some || exists|i: int|
            0 <= i < self.modes.len() && #[trigger] self.modes[i].refresh_rate_mode == Some(
                "variable"@,
            )
    }
}

impl PhysicalMonitor {
    pub fn connector(&self) -> (r: &String)
        ensures
            r@ == self.identity.connector@,
    {
        &self.identity.connector
    }

    pub fn current_mode(&self) -> (r: Option<&MonitorMode>)
        ensures
            match first_where(self@.modes, |m: ModeView| m.is_current) {
                None => r is None,
                Some(i) => r is Some && r->0@ == self@.modes[i],
            },
    {
                let ghost mv = self@.modes;
        let mut i: usize = 0;
        while i < self.modes.len()
            invariant
                mv == modes_view(self.modes@),
                i <= self.modes@.len(),
                forall|j: int| 0 <= j < i ==> !(#[trigger] mv[j]).is_current,
            decreases self.modes@.len() - i,
        {
            assert(mv[i as int] == self.modes@[i as int]@);
            if self.modes[i].is_current {
                proof {
                    assert(mv[i as int] == self.modes@[i as int]@);
                    lemma_first_where_at(mv, |m: ModeView| m.is_current, i as int);
                }
                return Some(&self.modes[i]);
            }
            i += 1;
        }
        proof {
            lemma_first_where_none(mv, |m: ModeView| m.is_current);
        }
        None
    }

    pub fn preferred_mode(&self) -> (r: Option<&MonitorMode>)
        ensures
            match first_where(self@.modes, |m: ModeView| m.is_preferred) {
                None => r is None,
                Some(i) => r is Some && r->0@ == self@.modes[i],
            },
    {
                let ghost mv = self@.modes;
        let mut i: usize = 0;
        while i < self.modes.len()
            invariant
                mv == modes_view(self.modes@),
                i <= self.modes@.len(),
                forall|j: int| 0 <= j < i ==> !(#[trigger] mv[j]).is_preferred,
            decreases self.modes@.len() - i,
        {
            assert(mv[i as int] == self.modes@[i as int]@);
            if self.modes[i].is_preferred {
                proof {
                    assert(mv[i as int] == self.modes@[i as int]@);
                    lemma_first_where_at(mv, |m: ModeView| m.is_preferred, i as int);
                }
                return Some(&self.modes[i]);
            }
            i += 1;
        }
        proof {
            lemma_first_where_none(mv, |m: ModeView| m.is_preferred);
        }
        None
    }

    /// Index of the first mode with the given ID.
    pub fn find_mode_index(&self, id: &str) -> (r: Option<usize>)
        ensures
            match first_where(self@.modes, |m: ModeView| m.id == id@) {
                None => r is None,
                Some(i) => r is Some && r->0 as int == i && 0 <= i < self@.modes.len(),
            },
    {
                let ghost mv = self@.modes;
        let mut i: usize = 0;
        while i < self.modes.len()
            invariant
                mv == modes_view(self.modes@),
                i <= self.modes@.len(),
                forall|j: int| 0 <= j < i ==> (#[trigger] mv[j]).id != id@,
            decreases self.modes@.len() - i,
        {
            assert(mv[i as int] == self.modes@[i as int]@);
            if str_eq(self.modes[i].id.as_str(), id) {
                proof {
                    assert(mv[i as int] == self.modes@[i as int]@);
                    lemma_first_where_at(mv, |m: ModeView| m.id == id@, i as int);
                }
                return Some(i);
            }
            i += 1;
        }
        proof {
            lemma_first_where_none(mv, |m: ModeView| m.id == id@);
        }
        None
    }

    pub fn find_mode(&self, id: &str) -> (r: Option<&MonitorMode>)
        ensures
            match first_where(self@.modes, |m: ModeView| m.id == id@) {
                None => r is None,
                Some(i) => r is Some && r->0@ == self@.modes[i],
            },
    {
        match self.find_mode_index(id) {
            Some(i) => {
                assert(self@.modes[i as int] == self.modes@[i as int]@);
                Some(&self.modes[i])
            },
            None => None,
        }
    }

    /// Best (non-interlaced first, then highest refresh) mode at a
    /// resolution.
    pub fn best_mode_at(&self, width: i32, height: i32) -> (r: Option<&MonitorMode>)
        ensures
            match best_mode_upto(self@.modes, width, height, self@.modes.len() as int) {
                None => r is None,
                Some(i) => r is Some && r->0@ == self@.modes[i],
            },
    {
        match self.best_mode_index_at(width, height) {
            Some(i) => {
                assert(self@.modes[i as int] == self.modes@[i as int]@);
                Some(&self.modes[i])
            },
            None => None,
        }
    }

    /// Index of the best mode at a resolution.
    pub fn best_mode_index_at(&self, width: i32, height: i32) -> (r: Option<usize>)
        ensures
            match best_mode_upto(self@.modes, width, height, self@.modes.len() as int) {
                None => r is None,
                Some(i) => r is Some && r->0 as int == i && 0 <= i < self@.modes.len(),
            },
    {
        let ghost mv = self@.modes;
        let mut best: Option<usize> = None;
        let mut i: usize = 0;
        while i < self.modes.len()
            invariant
                mv == modes_view(self.modes@),
                i <= self.modes@.len(),
                best == match best_mode_upto(mv, width, height, i as int) {
                    None => None,
                    Some(k) => Some(k as usize),
                },
                best_mode_upto(mv, width, height, i as int) matches Some(k) ==> 0 <= k < i,
            decreases self.modes@.len() - i,
        {
            let m = &self.modes[i];
            if m.width == width && m.height == height {
                match best {
                    None => {
                        best = Some(i);
                    },
                    Some(b) => {
                        let o = &self.modes[b];
                        if (!m.is_interlaced && o.is_interlaced) || (m.is_interlaced
                            == o.is_interlaced && m.refresh_micro_hz > o.refresh_micro_hz) {
                            best = Some(i);
                        }
                    },
                }
            }
            i += 1;
        }
        best
    }

    /// The refresh rates available at a resolution, descending and
    /// deduplicated: one progressive mode per rate, the first listed.
    pub fn refresh_rates_at(&self, width: i32, height: i32) -> (r: Vec<&MonitorMode>)
        ensures
            ({
                let order = rates_order_upto(self@.modes, width, height, self@.modes.len() as int);
                &&& r@.len() == order.len()
                &&& forall|k: int| 0 <= k < order.len() ==> 0 <= #[trigger] order[k] < self@.modes.len()
                &&& forall|k: int| 0 <= k < order.len() ==> (#[trigger] r@[k])@ == self@.modes[order[k]]
            }),
            forall|k: int| 0 <= k < r@.len() ==> rate_fits((#[trigger] r@[k])@, width, height),
            forall|i: int, j: int| 0 <= i < j < r@.len() ==> (#[trigger] r@[i])@.refresh > (#[trigger] r@[j])@.refresh,
            forall|t: int|
                0 <= t < self@.modes.len() && rate_fits(#[trigger] self@.modes[t], width, height) ==> exists|k: int|
                    0 <= k < r@.len() && (#[trigger] r@[k])@.refresh == self@.modes[t].refresh,
    {
        let ghost mv = self@.modes;
        let mut order: Vec<usize> = Vec::new();
        let mut i: usize = 0;
        while i < self.modes.len()
            invariant
                mv == modes_view(self.modes@),
                i <= self.modes@.len(),
                order@.len() == rates_order_upto(mv, width, height, i as int).len(),
                forall|k: int|
                    0 <= k < order@.len() ==> #[trigger] order@[k] as int == rates_order_upto(
                        mv,
                        width,
                        height,
                        i as int,
                    )[k],
                forall|k: int| 0 <= k < order@.len() ==> #[trigger] order@[k] < i,
            decreases self.modes@.len() - i,
        {
            let ghost prev = rates_order_upto(mv, width, height, i as int);
            let m = &self.modes[i];
            if m.width == width && m.height == height && !m.is_interlaced {
                let mut pos: usize = 0;
                let ghost prev_i = prev;
                assert(prev_i =~= prev_i.subrange(0, prev_i.len() as int));
                let mut cnt: usize = 0;
                let mut dup = false;
                while pos < order.len()
                    invariant
                        mv == modes_view(self.modes@),
                        i < self.modes@.len(),
                        order@.len() == prev.len(),
                        forall|k: int| 0 <= k < order@.len() ==> #[trigger] order@[k] as int == prev[k],
                        forall|k: int| 0 <= k < order@.len() ==> #[trigger] order@[k] < i,
                        pos <= order@.len(),
                        cnt <= pos,
                        cnt == count_at_least(mv, prev.subrange(0, pos as int), m.refresh_micro_hz),
                        dup == has_rate(mv, prev.subrange(0, pos as int), m.refresh_micro_hz),
                    decreases order@.len() - pos,
                {
                    let ghost sub = prev.subrange(0, pos as int);
                    let ghost sub2 = prev.subrange(0, pos as int + 1);
                    assert(sub2.drop_last() =~= sub);
                    if self.modes[order[pos]].refresh_micro_hz >= m.refresh_micro_hz {
                        cnt += 1;
                    }
                    if self.modes[order[pos]].refresh_micro_hz == m.refresh_micro_hz {
                        dup = true;
                    }
                    pos += 1;
                }
                assert(prev.subrange(0, prev.len() as int) =~= prev);
                if !dup {
                    order.insert(cnt, i);
                    proof {
                        let next = rates_order_upto(mv, width, height, i as int + 1);
                        assert(next =~= prev.insert(cnt as int, i as int));
                    }
                }
            }
            i += 1;
        }
        let mut out: Vec<&MonitorMode> = Vec::new();
        let mut k: usize = 0;
        while k < order.len()
            invariant
                mv == modes_view(self.modes@),
                k <= order@.len(),
                order@.len() == rates_order_upto(mv, width, height, self.modes@.len() as int).len(),
                forall|t: int|
                    0 <= t < order@.len() ==> #[trigger] order@[t] as int == rates_order_upto(
                        mv,
                        width,
                        height,
                        self.modes@.len() as int,
                    )[t],
                forall|t: int| 0 <= t < order@.len() ==> #[trigger] order@[t] < self.modes@.len(),
                out@.len() == k,
                forall|t: int| 0 <= t < k ==> (#[trigger] out@[t])@ == mv[order@[t] as int],
            decreases order@.len() - k,
        {
            assert(mv[order@[k as int] as int] == self.modes@[order@[k as int] as int]@);
            out.push(&self.modes[order[k]]);
            k += 1;
        }
        proof {
            let ord = rates_order_upto(mv, width, height, self.modes@.len() as int);
            assert forall|t: int| 0 <= t < ord.len() implies (#[trigger] out@[t])@ == mv[ord[t]] by {
                assert(order@[t] as int == ord[t]);
            }
            assert forall|t: int| 0 <= t < ord.len() implies 0 <= #[trigger] ord[t] < mv.len() by {
                assert(order@[t] as int == ord[t]);
                assert(order@[t] < self.modes@.len());
            }
            lemma_rates_order(mv, width, height, mv.len() as int);
            reveal(rates_fit);
            reveal(rates_cover);
            assert forall|i: int, j: int| 0 <= i < j < out@.len() implies (#[trigger] out@[i])@.refresh
                > (#[trigger] out@[j])@.refresh by {
                assert(mv[ord[i]].refresh > mv[ord[j]].refresh);
            }
            assert forall|t: int| 0 <= t < mv.len() && rate_fits(#[trigger] mv[t], width, height) implies exists|k: int|
                0 <= k < out@.len() && (#[trigger] out@[k])@.refresh == mv[t].refresh by {
                let k = choose|k: int| 0 <= k < ord.len() && mv[#[trigger] ord[k]].refresh == mv[t].refresh;
                assert(out@[k]@ == mv[ord[k]]);
            }
        }
        out
    }

    /// Distinct progressive resolutions, largest area first (ties: wider
    /// first).
    pub fn resolutions(&self) -> (r: Vec<(i32, i32)>)
        ensures
            r@ == resolutions_upto(self@.modes, self@.modes.len() as int),
            r@.no_duplicates(),
            res_sorted(r@),
            res_cover(self@.modes, self@.modes.len() as int, r@),
    {
        let ghost mv = self@.modes;
        let mut res: Vec<(i32, i32)> = Vec::new();
        let mut i: usize = 0;
        while i < self.modes.len()
            invariant
                mv == modes_view(self.modes@),
                i <= self.modes@.len(),
                res@ == resolutions_upto(mv, i as int),
            decreases self.modes@.len() - i,
        {
            let m = &self.modes[i];
            if !m.is_interlaced {
                let r = (m.width, m.height);
                let mut present = false;
                let mut j: usize = 0;
                while j < res.len()
                    invariant
                        j <= res@.len(),
                        present == exists|t: int| 0 <= t < j && res@[t] == r,
                    decreases res@.len() - j,
                {
                    if res[j].0 == r.0 && res[j].1 == r.1 {
                        present = true;
                    }
                    j += 1;
                }
                if !present {
                    let ghost prev = res@;
                    let mut cnt: usize = 0;
                    let mut k: usize = 0;
                    while k < res.len()
                        invariant
                            res@ == prev,
                            k <= prev.len(),
                            cnt <= k,
                            cnt == count_before(prev.subrange(0, k as int), r),
                        decreases prev.len() - k,
                    {
                        let ghost sub = prev.subrange(0, k as int);
                        let ghost sub2 = prev.subrange(0, k as int + 1);
                        assert(sub2.drop_last() =~= sub);
                        let a = res[k];
                        proof {
                            lemma_i32_product(a.0 as int, a.1 as int);
                            lemma_i32_product(r.0 as int, r.1 as int);
                        }
                        let aa = a.0 as i64 * a.1 as i64;
                        let ra = r.0 as i64 * r.1 as i64;
                        if !(ra > aa || (ra == aa && r.0 > a.0)) {
                            cnt += 1;
                        }
                        k += 1;
                    }
                    assert(prev.subrange(0, prev.len() as int) =~= prev);
                    res.insert(cnt, r);
                }
            }
            i += 1;
        }
        proof {
            lemma_resolutions_law(mv, mv.len() as int);
        }
        res
    }

    pub fn supports_hdr(&self) -> (r: bool)
        ensures
            r == self@.supported_color_modes.contains(ColorMode::Bt2100),
    {
        let mut i: usize = 0;
        while i < self.supported_color_modes.len()
            invariant
                i <= self.supported_color_modes@.len(),
                forall|j: int| 0 <= j < i ==> self.supported_color_modes@[j] != ColorMode::Bt2100,
            decreases self.supported_color_modes@.len() - i,
        {
            if self.supported_color_modes[i] == ColorMode::Bt2100 {
                return true;
            }
            i += 1;
        }
        false
    }

    pub fn supports_vrr(&self) -> (r: bool)
        ensures
            r == self@.supports_vrr(),
    {
        if self.min_refresh_rate.is_some() {
            return true;
        }
        let ghost mv = self@.modes;
        let mut i: usize = 0;
        while i < self.modes.len()
            invariant
                mv == modes_view(self.modes@),
                i <= self.modes@.len(),
                forall|j: int| 0 <= j < i ==> #[trigger] mv[j].refresh_rate_mode != Some("variable"@),
            decreases self.modes@.len() - i,
        {
            assert(mv[i as int] == self.modes@[i as int]@);
            match &self.modes[i].refresh_rate_mode {
                Some(s) => {
                    if str_eq(s.as_str(), "variable") {
                        assert(mv[i as int].refresh_rate_mode == Some("variable"@));
                        return true;
                    }
                },
                None => {},
            }
            i += 1;
        }
        false
    }

    /// Heuristic: does this look like a KVM / capture / EDID-emulating
    /// device rather than a real panel? Score-based, threshold 2.
    pub fn kvm_score(&self) -> (r: u32)
        requires
            serial_groupable(self.identity.serial@),
        ensures
            r == self@.kvm_score(),
    {
        let mut score: u32 = 0;
        let vendor = upper_chars(self.identity.vendor.as_str());
        let product = lower_chars(self.identity.product.as_str());
        let ltm = chars_of("LTM");
        let lnt = chars_of("LNT");
        if seq_eq(&vendor, &ltm) || seq_eq(&vendor, &lnt) {
            score += 2;
        }
        if contains_str(&product, "kvm") || contains_str(&product, "capture") || contains_str(
            &product,
            "dummy",
        ) {
            score += 2;
        }
        if self.identity.serial_looks_synthetic() {
            score += 1;
        }
        let native_width: i32 = match self.preferred_mode() {
            Some(m) => m.width,
            None => 0,
        };
        match self.physical_size_mm {
            Some((w_mm, h_mm)) => {
                if w_mm > 0 && w_mm < 200 && h_mm > 0 && native_width >= 2560 {
                    score += 1;
                }
            },
            None => {
                match &self.display_name {
                    Some(name) => {
                        match parse_diagonal_inches(name.as_str()) {
                            Some(inches) => {
                                if inches <= 8 && native_width >= 2560 {
                                    score += 1;
                                }
                            },
                            None => {},
                        }
                    },
                    None => {},
                }
            },
        }
        score
    }

    pub fn is_likely_kvm(&self) -> (r: bool)
        requires
            serial_groupable(self.identity.serial@),
        ensures
            r == (self@.kvm_score() >= 2),
    {
        self.kvm_score() >= 2
    }
}

/// Whether two character vectors are equal.
pub fn seq_eq(a: &Vec<char>, b: &Vec<char>) -> (r: bool)
    ensures
        r == (a@ == b@),
{
    if a.len() != b.len() {
        return false;
    }
    let mut i: usize = 0;
    while i < a.len()
        invariant
            a@.len() == b@.len(),
            i <= a@.len(),
            forall|j: int| 0 <= j < i ==> a@[j] == b@[j],
        decreases a@.len() - i,
    {
        if a[i] != b[i] {
            return false;
        }
        i += 1;
    }
    assert(a@ =~= b@);
    true
}

proof fn lemma_trailing_digits_props(s: Seq<char>)
    ensures
        trailing_digits(s).len() <= s.len(),
        trailing_digits(s) == s.subrange(s.len() - trailing_digits(s).len(), s.len() as int),
        forall|j: int| 0 <= j < trailing_digits(s).len() ==> '0' <= #[trigger] trailing_digits(s)[j] <= '9',
    decreases s.len(),
{
    if s.len() > 0 && '0' <= s.last() <= '9' {
        lemma_trailing_digits_props(s.drop_last());
        let t = trailing_digits(s.drop_last());
        assert(trailing_digits(s) =~= s.subrange(s.len() - trailing_digits(s).len(), s.len() as int));
    } else {
        assert(trailing_digits(s) =~= s.subrange(s.len() as int, s.len() as int));
    }
}

/// Parses the claimed diagonal from a `display-name` such as
/// `LG Electronics 27"`.
pub fn parse_diagonal_inches(display_name: &str) -> (r: Option<i32>)
    ensures
        r == diagonal_inches(display_name@),
{
    let cs = chars_of(display_name);
    let mut q: usize = 0;
    while q < cs.len() && cs[q] != '"'
        invariant
            cs@ == display_name@,
            q <= cs@.len(),
            forall|j: int| 0 <= j < q ==> #[trigger] cs@[j] != '"',
        decreases cs@.len() - q,
    {
        q += 1;
    }
    if q == cs.len() {
        proof {
            lemma_first_where_none(cs@, |c: char| c == '"');
        }
        return None;
    }
    proof {
        lemma_first_where_at(cs@, |c: char| c == '"', q as int);
    }
    let ghost head = cs@.subrange(0, q as int);
    proof {
        lemma_trailing_digits_props(head);
    }
    // Walk back over the digits right before the quote.
    let mut start: usize = q;
    while start > 0 && '0' <= cs[start - 1] && cs[start - 1] <= '9'
        invariant
            cs@ == display_name@,
            start <= q < cs@.len(),
            head == cs@.subrange(0, q as int),
            trailing_digits(head) == trailing_digits(cs@.subrange(0, start as int)) + cs@.subrange(
                start as int,
                q as int,
            ),
        decreases start,
    {
        let ghost a = cs@.subrange(0, start as int);
        assert(a.drop_last() =~= cs@.subrange(0, start - 1));
        assert(cs@.subrange(start - 1, q as int) =~= seq![a.last()] + cs@.subrange(start as int, q as int));
        assert(trailing_digits(a) == trailing_digits(a.drop_last()).push(a.last()));
        start -= 1;
        assert(trailing_digits(head) =~= trailing_digits(cs@.subrange(0, start as int)) + cs@.subrange(
            start as int,
            q as int,
        ));
    }
    assert(trailing_digits(cs@.subrange(0, start as int)) =~= Seq::<char>::empty());
    assert(trailing_digits(head) =~= cs@.subrange(start as int, q as int));
    if start == q {
        return None;
    }
    assert forall|j: int| start <= j < q implies '0' <= #[trigger] cs@[j] <= '9' by {
        assert(cs@[j] == trailing_digits(head)[j - start]);
    }
    let mut value: u64 = 0;
    let mut k: usize = start;
    let mut overflow = false;
    while k < q
        invariant
            cs@ == display_name@,
            start <= k <= q < cs@.len(),
            !overflow ==> value == digits_value(cs@.subrange(start as int, k as int)),
            !overflow ==> value <= i32::MAX,
            overflow ==> digits_value(cs@.subrange(start as int, k as int)) > i32::MAX,
            forall|j: int| start <= j < q ==> '0' <= #[trigger] cs@[j] <= '9',
        decreases q - k,
    {
        let ghost d0 = cs@.subrange(start as int, k as int);
        let ghost d1 = cs@.subrange(start as int, k as int + 1);
        assert(d1.drop_last() =~= d0);
        assert(d1.last() == cs@[k as int]);
        let digit: u64 = (cs[k] as u32 - 48) as u64;
        if !overflow {
            value = value * 10 + digit;
            if value > i32::MAX as u64 {
                overflow = true;
            }
        } else {
            proof {
                assert(digits_value(d1) >= digits_value(d0) * 10) by (nonlinear_arith)
                    requires
                        digits_value(d1) == digits_value(d0) * 10 + ((d1.last() as u32) - 48) as nat,
                ;
            }
        }
        k += 1;
    }
    assert(trailing_digits(head).len() == q - start);
    if overflow {
        None
    } else {
        Some(value as i32)
    }
}

/// The best mode at a resolution is a mode of that size that no other mode
/// of that size beats (progressive before interlaced, then higher
/// refresh), the first such on a tie; there is none exactly when no mode
/// has that size.
pub proof fn lemma_best_mode_law(modes: Seq<ModeView>, width: i32, height: i32, n: int)
    requires
        0 <= n <= modes.len(),
    ensures
        best_mode_upto(modes, width, height, n) matches Some(b) ==> {
            &&& 0 <= b < n
            &&& modes[b].width == width && modes[b].height == height
            &&& forall|j: int|
                0 <= j < n && (#[trigger] modes[j]).width == width && modes[j].height == height ==> (
                !modes[j].is_interlaced ==> !modes[b].is_interlaced) && (modes[j].is_interlaced
                    == modes[b].is_interlaced ==> modes[j].refresh <= modes[b].refresh)
            &&& forall|j: int|
                0 <= j < b && (#[trigger] modes[j]).width == width && modes[j].height == height ==> (
                !modes[b].is_interlaced && modes[j].is_interlaced) || (modes[j].is_interlaced
                    == modes[b].is_interlaced && modes[j].refresh < modes[b].refresh)
        },
        best_mode_upto(modes, width, height, n) is None ==> forall|j: int|
            0 <= j < n ==> !((#[trigger] modes[j]).width == width && modes[j].height == height),
    decreases n,
{
    if n > 0 {
        lemma_best_mode_law(modes, width, height, n - 1);
    }
}

} // verus!
