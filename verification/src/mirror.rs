//! Mirror-group compatibility.
//!
//! Mirrored monitors live in one logical display, so all members must use
//! modes with the same resolution; refresh rates may differ between
//! members.
use vstd::prelude::*;
use crate::mode::{lemma_i32_product, scale_listed, ModeView, MonitorMode};
use crate::monitor::{best_mode_upto, resolutions_upto, MonitorView, PhysicalMonitor};
use crate::seqs::first_where;
use crate::text::{int_text, push_int, push_str};
use crate::units::{approx, approx_eq, SCALE_EPS};

verus! {

/// The mode chosen for one member of a mirror candidate.
#[derive(Debug, PartialEq)]
pub struct MirrorMemberMode {
    pub connector: String,
    pub mode_id: String,
    pub refresh_micro_hz: i64,
}

pub ghost struct MemberView {
    pub connector: Seq<char>,
    pub mode_id: Seq<char>,
    pub refresh: i64,
}

impl View for MirrorMemberMode {
    type V = MemberView;

    open spec fn view(&self) -> MemberView {
        MemberView { connector: self.connector@, mode_id: self.mode_id@, refresh: self.refresh_micro_hz }
    }
}

/// One resolution every member can produce, with a per-member mode choice.
#[derive(Debug, PartialEq)]
pub struct MirrorCandidate {
    pub width: i32,
    pub height: i32,
    /// Best (highest-refresh) mode per member at this resolution.
    pub members: Vec<MirrorMemberMode>,
    /// Scales supported by all chosen modes (millionths).
    pub common_scales: Vec<i64>,
    /// The slowest member's refresh rate, in microhertz.
    pub min_refresh_micro_hz: i64,
}

pub ghost struct CandidateView {
    pub width: i32,
    pub height: i32,
    pub members: Seq<MemberView>,
    pub common_scales: Seq<i64>,
    pub min_refresh: i64,
}

pub open spec fn members_view(s: Seq<MirrorMemberMode>) -> Seq<MemberView> {
    s.map_values(|m: MirrorMemberMode| m@)
}

impl View for MirrorCandidate {
    type V = CandidateView;

    open spec fn view(&self) -> CandidateView {
        CandidateView {
            width: self.width,
            height: self.height,
            members: members_view(self.members@),
            common_scales: self.common_scales@,
            min_refresh: self.min_refresh_micro_hz,
        }
    }
}

pub open spec fn candidates_view(s: Seq<MirrorCandidate>) -> Seq<CandidateView> {
    s.map_values(|c: MirrorCandidate| c@)
}

pub open spec fn area_of(c: CandidateView) -> int {
    c.width * c.height
}

impl MirrorCandidate {
    pub fn area(&self) -> (r: i64)
        ensures
            r == area_of(self@),
    {
        proof {
            lemma_i32_product(self.width as int, self.height as int);
        }
        self.width as i64 * self.height as i64
    }
}

/// Details for explaining why no mirror is possible: connector and native
/// resolution of each member.
#[derive(Debug, PartialEq)]
pub struct NoCommonResolution {
    pub natives: Vec<(String, (i32, i32))>,
}

#[derive(Debug, PartialEq)]
pub enum MirrorError {
    TooFewMonitors,
    NoCommonResolution(NoCommonResolution),
}

pub ghost enum MirrorErrorView {
    TooFewMonitors,
    NoCommonResolution(Seq<(Seq<char>, (i32, i32))>),
}

pub open spec fn natives_view(s: Seq<(String, (i32, i32))>) -> Seq<(Seq<char>, (i32, i32))> {
    s.map_values(|p: (String, (i32, i32))| (p.0@, p.1))
}

impl View for MirrorError {
    type V = MirrorErrorView;

    open spec fn view(&self) -> MirrorErrorView {
        match self {
            MirrorError::TooFewMonitors => MirrorErrorView::TooFewMonitors,
            MirrorError::NoCommonResolution(d) => MirrorErrorView::NoCommonResolution(
                natives_view(d.natives@),
            ),
        }
    }
}

/// `c: w×h` entries joined with `, `.
pub open spec fn natives_text(n: Seq<(Seq<char>, (i32, i32))>) -> Seq<char>
    decreases n.len(),
{
    if n.len() == 0 {
        Seq::empty()
    } else {
        let e = n.last();
        let entry = e.0 + ": "@ + int_text(e.1.0 as int) + "×"@ + int_text(e.1.1 as int);
        if n.len() == 1 {
            entry
        } else {
            natives_text(n.drop_last()) + ", "@ + entry
        }
    }
}

pub open spec fn no_common_text(n: Seq<(Seq<char>, (i32, i32))>) -> Seq<char> {
    "The selected displays do not share a compatible mirror resolution ("@ + natives_text(n) + ")."@
}

impl NoCommonResolution {
    /// Human-readable explanation listing each member's native resolution.
    pub fn message(&self) -> (r: String)
        ensures
            r@ == no_common_text(natives_view(self.natives@)),
    {
        let ghost nv = natives_view(self.natives@);
        let mut out = String::new();
        push_str(&mut out, "The selected displays do not share a compatible mirror resolution (");
        let ghost head = out@;
        let mut i: usize = 0;
        while i < self.natives.len()
            invariant
                nv == natives_view(self.natives@),
                i <= nv.len(),
                out@ == head + natives_text(nv.subrange(0, i as int)),
            decreases nv.len() - i,
        {
            let (c, (w, h)) = &self.natives[i];
            let ghost prev = out@;
            if i > 0 {
                push_str(&mut out, ", ");
            }
            push_str(&mut out, c.as_str());
            push_str(&mut out, ": ");
            push_int(&mut out, *w as i64);
            push_str(&mut out, "×");
            push_int(&mut out, *h as i64);
            proof {
                reveal_strlit(", ");
                let sub = nv.subrange(0, i as int + 1);
                assert(sub.drop_last() =~= nv.subrange(0, i as int));
                assert(sub.last() == (c@, (*w, *h)));
            }
            i += 1;
            assert(out@ =~= head + natives_text(nv.subrange(0, i as int)));
        }
        push_str(&mut out, ").");
        assert(nv.subrange(0, nv.len() as int) =~= nv);
        assert(out@ =~= no_common_text(nv));
        out
    }
}

pub open spec fn mirror_error_text(e: MirrorErrorView) -> Seq<char> {
    match e {
        MirrorErrorView::TooFewMonitors => "A mirror group needs at least two monitors."@,
        MirrorErrorView::NoCommonResolution(n) => no_common_text(n),
    }
}

impl MirrorError {
    /// Human-readable explanation.
    pub fn message(&self) -> (r: String)
        ensures
            r@ == mirror_error_text(self@),
    {
        match self {
            MirrorError::TooFewMonitors => {
                let mut out = String::new();
                push_str(&mut out, "A mirror group needs at least two monitors.");
                assert(out@ =~= "A mirror group needs at least two monitors."@);
                out
            },
            MirrorError::NoCommonResolution(d) => d.message(),
        }
    }
}

// ---------------------------------------------------------------------
// The model.
// ---------------------------------------------------------------------

/// Distinct progressive resolutions of a monitor, largest first.
pub open spec fn mon_resolutions(m: MonitorView) -> Seq<(i32, i32)> {
    resolutions_upto(m.modes, m.modes.len() as int)
}

/// Every member after the first offers resolution `r`.
pub open spec fn shared_by_rest(ms: Seq<MonitorView>, r: (i32, i32)) -> bool {
    forall|i: int| 1 <= i < ms.len() ==> mon_resolutions(#[trigger] ms[i]).contains(r)
}

/// The first member's resolutions that every other member offers, in the
/// first member's order.
pub open spec fn common_resolutions(ms: Seq<MonitorView>) -> Seq<(i32, i32)> {
    mon_resolutions(ms[0]).filter(|r: (i32, i32)| shared_by_rest(ms, r))
}

/// The best mode of a monitor at a resolution.
pub open spec fn best_at(m: MonitorView, w: i32, h: i32) -> Option<ModeView> {
    match best_mode_upto(m.modes, w, h, m.modes.len() as int) {
        Some(i) => Some(m.modes[i]),
        None => None,
    }
}

/// Lowest refresh rate of the modes; `i64::MAX` for none.
pub open spec fn min_refresh_of(modes: Seq<ModeView>) -> i64
    decreases modes.len(),
{
    if modes.len() == 0 {
        i64::MAX
    } else {
        let m = min_refresh_of(modes.drop_last());
        if modes.last().refresh < m {
            modes.last().refresh
        } else {
            m
        }
    }
}

/// Scale `s` is within `SCALE_EPS` of some scale of every list after the
/// first.
pub open spec fn scale_shared(lists: Seq<Seq<i64>>, s: i64) -> bool {
    forall|k: int| 1 <= k < lists.len() ==> scale_listed(#[trigger] lists[k], s as int)
}

/// Scales of the first list that every other list supports.
pub open spec fn intersect_scales(lists: Seq<Seq<i64>>) -> Seq<i64> {
    if lists.len() == 0 {
        Seq::empty()
    } else {
        lists[0].filter(|s: i64| scale_shared(lists, s))
    }
}

/// The candidate at a resolution, when every member has a mode there.
pub open spec fn candidate_at(ms: Seq<MonitorView>, r: (i32, i32)) -> Option<CandidateView> {
    if forall|i: int| 0 <= i < ms.len() ==> best_at(#[trigger] ms[i], r.0, r.1) is Some {
        let modes = Seq::new(ms.len(), |i: int| best_at(ms[i], r.0, r.1)->0);
        Some(
            CandidateView {
                width: r.0,
                height: r.1,
                members: Seq::new(
                    ms.len(),
                    |i: int|
                        MemberView {
                            connector: ms[i].identity.connector@,
                            mode_id: modes[i].id,
                            refresh: modes[i].refresh,
                        },
                ),
                common_scales: intersect_scales(modes.map_values(|m: ModeView| m.scales)),
                min_refresh: min_refresh_of(modes),
            },
        )
    } else {
        None
    }
}

/// `p` stays before `x` when `x` joins a list sorted by descending area,
/// then descending minimum refresh (equal keys keep their order).
pub open spec fn keeps_before(p: CandidateView, x: CandidateView) -> bool {
    area_of(p) > area_of(x) || (area_of(p) == area_of(x) && p.min_refresh >= x.min_refresh)
}

pub open spec fn count_keeps(prev: Seq<CandidateView>, x: CandidateView) -> nat
    decreases prev.len(),
{
    if prev.len() == 0 {
        0
    } else {
        count_keeps(prev.drop_last(), x) + if keeps_before(prev.last(), x) {
            1nat
        } else {
            0nat
        }
    }
}

/// Stable sort by descending area, then descending minimum refresh.
pub open spec fn sort_candidates(s: Seq<CandidateView>) -> Seq<CandidateView>
    decreases s.len(),
{
    if s.len() == 0 {
        s
    } else {
        let prev = sort_candidates(s.drop_last());
        prev.insert(count_keeps(prev, s.last()) as int, s.last())
    }
}

/// A member's native resolution: its preferred mode, else its first mode,
/// else `(0, 0)`.
pub open spec fn native_of(m: MonitorView) -> (i32, i32) {
    match first_where(m.modes, |x: ModeView| x.is_preferred) {
        Some(i) => (m.modes[i].width, m.modes[i].height),
        None => if m.modes.len() > 0 {
            (m.modes[0].width, m.modes[0].height)
        } else {
            (0, 0)
        },
    }
}

/// Everything `mirror_candidates` decides.
pub open spec fn mirror_spec(ms: Seq<MonitorView>) -> Result<Seq<CandidateView>, MirrorErrorView> {
    if ms.len() < 2 {
        Err(MirrorErrorView::TooFewMonitors)
    } else if common_resolutions(ms).len() == 0 {
        Err(
            MirrorErrorView::NoCommonResolution(
                ms.map_values(|m: MonitorView| (m.identity.connector@, native_of(m))),
            ),
        )
    } else {
        Ok(sort_candidates(common_resolutions(ms).filter_map(|r: (i32, i32)| candidate_at(ms, r))))
    }
}

pub open spec fn monitor_refs_view(s: Seq<&PhysicalMonitor>) -> Seq<MonitorView> {
    s.map_values(|m: &PhysicalMonitor| m@)
}

// ---------------------------------------------------------------------
// Executable parts.
// ---------------------------------------------------------------------

fn contains_res(v: &Vec<(i32, i32)>, r: (i32, i32)) -> (b: bool)
    ensures
        b == v@.contains(r),
{
    let mut k: usize = 0;
    while k < v.len()
        invariant
            k <= v@.len(),
            forall|t: int| 0 <= t < k ==> v@[t] != r,
        decreases v@.len() - k,
    {
        if v[k].0 == r.0 && v[k].1 == r.1 {
            assert(v@[k as int] == r);
            return true;
        }
        k += 1;
    }
    false
}

/// Resolutions of the first member that all other members offer.
fn common_of(members: &[&PhysicalMonitor]) -> (r: Vec<(i32, i32)>)
    requires
        members@.len() >= 1,
    ensures
        r@ == common_resolutions(monitor_refs_view(members@)),
{
    let ghost ms = monitor_refs_view(members@);
    let first = members[0].resolutions();
    assert(first@ == mon_resolutions(ms[0]));
    let mut rest: Vec<Vec<(i32, i32)>> = Vec::new();
    let mut i: usize = 1;
    while i < members.len()
        invariant
            ms == monitor_refs_view(members@),
            1 <= i <= members@.len(),
            rest@.len() == i - 1,
            forall|t: int| 0 <= t < i - 1 ==> (#[trigger] rest@[t])@ == mon_resolutions(ms[t + 1]),
        decreases members@.len() - i,
    {
        let v = members[i].resolutions();
        assert(ms[i as int] == members@[i as int]@);
        rest.push(v);
        i += 1;
    }
    let ghost pred = |r: (i32, i32)| shared_by_rest(ms, r);
    let mut common: Vec<(i32, i32)> = Vec::new();
    let mut k: usize = 0;
    while k < first.len()
        invariant
            ms == monitor_refs_view(members@),
            ms.len() == members@.len(),
            first@ == mon_resolutions(ms[0]),
            rest@.len() == ms.len() - 1,
            forall|t: int| 0 <= t < ms.len() - 1 ==> (#[trigger] rest@[t])@ == mon_resolutions(ms[t + 1]),
            pred == (|r: (i32, i32)| shared_by_rest(ms, r)),
            k <= first@.len(),
            common@ == first@.take(k as int).filter(pred),
        decreases first@.len() - k,
    {
        let r = first[k];
        let mut shared = true;
        let mut j: usize = 0;
        while j < rest.len()
            invariant
                rest@.len() == ms.len() - 1,
                forall|t: int| 0 <= t < ms.len() - 1 ==> (#[trigger] rest@[t])@ == mon_resolutions(ms[t + 1]),
                j <= rest@.len(),
                shared == forall|t: int| 1 <= t < j + 1 ==> mon_resolutions(#[trigger] ms[t]).contains(r),
            decreases rest@.len() - j,
        {
            assert(rest@[j as int]@ == mon_resolutions(ms[j + 1]));
            if !contains_res(&rest[j], r) {
                shared = false;
            }
            j += 1;
        }
        assert(shared == shared_by_rest(ms, r));
        proof {
            reveal(Seq::filter);
            let t1 = first@.take(k as int + 1);
            assert(t1.drop_last() =~= first@.take(k as int));
            assert(t1.last() == r);
            assert(pred(r) == shared);
            assert(t1.filter(pred) == if pred(t1.last()) {
                t1.drop_last().filter(pred).push(t1.last())
            } else {
                t1.drop_last().filter(pred)
            });
        }
        if shared {
            common.push(r);
        }
        k += 1;
        assert(common@ =~= first@.take(k as int).filter(pred));
    }
    assert(first@.take(first@.len() as int) =~= first@);
    common
}

/// Scales of the first mode that all other modes support.
fn intersect_exec(modes: &Vec<&MonitorMode>) -> (r: Vec<i64>)
    ensures
        r@ == intersect_scales(modes@.map_values(|m: &MonitorMode| m@.scales)),
{
    let ghost lists = modes@.map_values(|m: &MonitorMode| m@.scales);
    if modes.len() == 0 {
        return Vec::new();
    }
    let first = &modes[0].supported_scales;
    assert(first@ == lists[0]);
    let ghost pred = |s: i64| scale_shared(lists, s);
    let mut out: Vec<i64> = Vec::new();
    let mut k: usize = 0;
    while k < first.len()
        invariant
            lists == modes@.map_values(|m: &MonitorMode| m@.scales),
            lists.len() == modes@.len(),
            lists.len() > 0,
            first@ == lists[0],
            pred == (|s: i64| scale_shared(lists, s)),
            k <= first@.len(),
            out@ == first@.take(k as int).filter(pred),
        decreases first@.len() - k,
    {
        let s = first[k];
        let mut shared = true;
        let mut j: usize = 1;
        while j < modes.len()
            invariant
                lists == modes@.map_values(|m: &MonitorMode| m@.scales),
                lists.len() == modes@.len(),
                1 <= j <= modes@.len(),
                shared == forall|t: int| 1 <= t < j ==> scale_listed(#[trigger] lists[t], s as int),
            decreases modes@.len() - j,
        {
            assert(lists[j as int] == modes@[j as int]@.scales);
            if !modes[j].supports_scale(s) {
                shared = false;
            }
            j += 1;
        }
        assert(shared == scale_shared(lists, s));
        proof {
            reveal(Seq::filter);
            let t1 = first@.take(k as int + 1);
            assert(t1.drop_last() =~= first@.take(k as int));
            assert(t1.last() == s);
            assert(pred(s) == shared);
            assert(t1.filter(pred) == if pred(t1.last()) {
                t1.drop_last().filter(pred).push(t1.last())
            } else {
                t1.drop_last().filter(pred)
            });
        }
        if shared {
            out.push(s);
        }
        k += 1;
        assert(out@ =~= first@.take(k as int).filter(pred));
    }
    assert(first@.take(first@.len() as int) =~= first@);
    out
}

/// The candidate at resolution `w`×`h`, when every member has a mode there.
fn candidate_for(members: &[&PhysicalMonitor], w: i32, h: i32) -> (r: Option<MirrorCandidate>)
    ensures
        match candidate_at(monitor_refs_view(members@), (w, h)) {
            None => r is None,
            Some(c) => r is Some && r->0@ == c,
        },
{
    let ghost ms = monitor_refs_view(members@);
    let mut chosen: Vec<&MonitorMode> = Vec::new();
    let mut i: usize = 0;
    while i < members.len()
        invariant
            ms == monitor_refs_view(members@),
            i <= members@.len(),
            chosen@.len() == i,
            forall|t: int| 0 <= t < i ==> best_at(#[trigger] ms[t], w, h) == Some(chosen@[t]@),
        decreases members@.len() - i,
    {
        assert(ms[i as int] == members@[i as int]@);
        match members[i].best_mode_at(w, h) {
            Some(m) => {
                chosen.push(m);
            },
            None => {
                assert(best_at(ms[i as int], w, h) is None);
                return None;
            },
        }
        i += 1;
    }
    let ghost modes = Seq::new(ms.len(), |t: int| best_at(ms[t], w, h)->0);
    assert(chosen@.map_values(|m: &MonitorMode| m@) =~= modes);
    let mut out: Vec<MirrorMemberMode> = Vec::new();
    let mut min_refresh: i64 = i64::MAX;
    let mut k: usize = 0;
    while k < chosen.len()
        invariant
            ms == monitor_refs_view(members@),
            chosen@.len() == ms.len(),
            modes == Seq::new(ms.len(), |t: int| best_at(ms[t], w, h)->0),
            forall|t: int| 0 <= t < ms.len() ==> best_at(#[trigger] ms[t], w, h) == Some(chosen@[t]@),
            k <= chosen@.len(),
            out@.len() == k,
            forall|t: int|
                0 <= t < k ==> (#[trigger] out@[t])@ == (MemberView {
                    connector: ms[t].identity.connector@,
                    mode_id: modes[t].id,
                    refresh: modes[t].refresh,
                }),
            min_refresh == min_refresh_of(modes.take(k as int)),
        decreases chosen@.len() - k,
    {
        let m = chosen[k];
        assert(ms[k as int] == members@[k as int]@);
        assert(modes[k as int] == m@);
        proof {
            assert(modes.take(k as int + 1).drop_last() =~= modes.take(k as int));
        }
        out.push(
            MirrorMemberMode {
                connector: members[k].connector().clone(),
                mode_id: m.id.clone(),
                refresh_micro_hz: m.refresh_micro_hz,
            },
        );
        if m.refresh_micro_hz < min_refresh {
            min_refresh = m.refresh_micro_hz;
        }
        k += 1;
    }
    let common_scales = intersect_exec(&chosen);
    proof {
        assert(modes.take(modes.len() as int) =~= modes);
        assert(chosen@.map_values(|m: &MonitorMode| m@.scales) =~= modes.map_values(|m: ModeView| m.scales));
    }
    let c = MirrorCandidate {
        width: w,
        height: h,
        members: out,
        common_scales,
        min_refresh_micro_hz: min_refresh,
    };
    assert(c@.members =~= candidate_at(ms, (w, h))->0.members);
    Some(c)
}

/// Number of entries of `sorted` that stay before `c`.
fn count_keeps_exec(sorted: &Vec<MirrorCandidate>, c: &MirrorCandidate) -> (r: usize)
    ensures
        r == count_keeps(candidates_view(sorted@), c@),
        r <= sorted@.len(),
{
    let ghost sv = candidates_view(sorted@);
    let ca = c.area();
    let mut cnt: usize = 0;
    let mut j: usize = 0;
    while j < sorted.len()
        invariant
            sv == candidates_view(sorted@),
            ca == area_of(c@),
            j <= sv.len(),
            cnt <= j,
            cnt == count_keeps(sv.subrange(0, j as int), c@),
        decreases sv.len() - j,
    {
        proof {
            assert(sv.subrange(0, j as int + 1).drop_last() =~= sv.subrange(0, j as int));
        }
        let pa = sorted[j].area();
        if pa > ca || (pa == ca && sorted[j].min_refresh_micro_hz >= c.min_refresh_micro_hz) {
            cnt += 1;
        }
        j += 1;
    }
    assert(sv.subrange(0, sv.len() as int) =~= sv);
    cnt
}

/// The native resolution of a member.
fn native_exec(m: &PhysicalMonitor) -> (r: (i32, i32))
    ensures
        r == native_of(m@),
{
    match m.preferred_mode() {
        Some(md) => (md.width, md.height),
        None => {
            if m.modes.len() > 0 {
                assert(m@.modes[0] == m.modes@[0]@);
                (m.modes[0].width, m.modes[0].height)
            } else {
                (0, 0)
            }
        },
    }
}

/// All resolutions the given monitors can mirror at, largest area first,
/// ties broken by higher minimum refresh (equal keys keep the first
/// member's order).
pub fn mirror_candidates(members: &[&PhysicalMonitor]) -> (r: Result<Vec<MirrorCandidate>, MirrorError>)
    ensures
        match (r, mirror_spec(monitor_refs_view(members@))) {
            (Ok(v), Ok(s)) => candidates_view(v@) == s,
            (Err(e), Err(s)) => e@ == s,
            _ => false,
        },
{
    let ghost ms = monitor_refs_view(members@);
    if members.len() < 2 {
        return Err(MirrorError::TooFewMonitors);
    }
    let common = common_of(members);
    if common.len() == 0 {
        let mut natives: Vec<(String, (i32, i32))> = Vec::new();
        let mut i: usize = 0;
        while i < members.len()
            invariant
                ms == monitor_refs_view(members@),
                i <= members@.len(),
                natives_view(natives@) == ms.take(i as int).map_values(
                    |m: MonitorView| (m.identity.connector@, native_of(m)),
                ),
            decreases members@.len() - i,
        {
            assert(ms[i as int] == members@[i as int]@);
            let ghost before = natives@;
            natives.push((members[i].connector().clone(), native_exec(members[i])));
            assert(natives_view(natives@) =~= natives_view(before).push(
                (ms[i as int].identity.connector@, native_of(ms[i as int])),
            ));
            assert(ms.take(i as int + 1).map_values(|m: MonitorView| (m.identity.connector@, native_of(m)))
                =~= ms.take(i as int).map_values(|m: MonitorView| (m.identity.connector@, native_of(m))).push(
                (ms[i as int].identity.connector@, native_of(ms[i as int])),
            ));
            i += 1;
            assert(natives_view(natives@) =~= ms.take(i as int).map_values(
                |m: MonitorView| (m.identity.connector@, native_of(m)),
            ));
        }
        assert(ms.take(ms.len() as int) =~= ms);
        return Err(MirrorError::NoCommonResolution(NoCommonResolution { natives }));
    }
    let ghost f = |r: (i32, i32)| candidate_at(ms, r);
    let mut sorted: Vec<MirrorCandidate> = Vec::new();
    let mut k: usize = 0;
    while k < common.len()
        invariant
            ms == monitor_refs_view(members@),
            common@ == common_resolutions(ms),
            f == (|r: (i32, i32)| candidate_at(ms, r)),
            k <= common@.len(),
            candidates_view(sorted@) == sort_candidates(common@.take(k as int).filter_map(f)),
        decreases common@.len() - k,
    {
        let (w, h) = common[k];
        proof {
            common@.lemma_filter_map_take_succ(f, k as int);
        }
        match candidate_for(members, w, h) {
            Some(c) => {
                let ghost prev = candidates_view(sorted@);
                let ghost lst = common@.take(k as int + 1).filter_map(f);
                assert(lst == common@.take(k as int).filter_map(f).push(c@));
                assert(lst.drop_last() =~= common@.take(k as int).filter_map(f));
                let pos = count_keeps_exec(&sorted, &c);
                sorted.insert(pos, c);
                assert(candidates_view(sorted@) =~= prev.insert(pos as int, c@));
            },
            None => {
                assert(common@.take(k as int + 1).filter_map(f) =~= common@.take(k as int).filter_map(f));
            },
        }
        k += 1;
    }
    assert(common@.take(common@.len() as int) =~= common@);
    Ok(sorted)
}

/// The recommended candidate: the first of the ranked list.
pub fn recommended(candidates: &[MirrorCandidate]) -> (r: Option<&MirrorCandidate>)
    ensures
        candidates@.len() == 0 ==> r is None,
        candidates@.len() > 0 ==> r == Some(&candidates@[0]),
{
    if candidates.len() == 0 {
        None
    } else {
        Some(&candidates[0])
    }
}

/// Ranked order of candidates: larger area first, then higher minimum
/// refresh.
pub open spec fn ranked(s: Seq<CandidateView>) -> bool {
    forall|i: int, j: int| 0 <= i < j < s.len() ==> keeps_before(#[trigger] s[i], #[trigger] s[j])
}

proof fn lemma_keeps_transitive(p: CandidateView, q: CandidateView, x: CandidateView)
    requires
        keeps_before(p, q),
        keeps_before(q, x),
    ensures
        keeps_before(p, x),
{
}

/// In a ranked list, the entries that stay before a newcomer form a prefix
/// whose length is their count.
proof fn lemma_keeps_prefix(prev: Seq<CandidateView>, x: CandidateView)
    requires
        ranked(prev),
    ensures
        count_keeps(prev, x) <= prev.len(),
        forall|j: int| 0 <= j < count_keeps(prev, x) ==> keeps_before(#[trigger] prev[j], x),
        forall|j: int| count_keeps(prev, x) <= j < prev.len() ==> !keeps_before(#[trigger] prev[j], x),
    decreases prev.len(),
{
    if prev.len() > 0 {
        let init = prev.drop_last();
        assert forall|i: int, j: int| 0 <= i < j < init.len() implies keeps_before(
            #[trigger] init[i],
            #[trigger] init[j],
        ) by {
            assert(init[i] == prev[i] && init[j] == prev[j]);
        }
        lemma_keeps_prefix(init, x);
        let last = prev.len() - 1;
        assert(prev.last() == prev[last]);
        if keeps_before(prev[last], x) {
            assert forall|j: int| 0 <= j < prev.len() implies keeps_before(#[trigger] prev[j], x) by {
                if j < last {
                    assert(keeps_before(prev[j], prev[last]));
                    lemma_keeps_transitive(prev[j], prev[last], x);
                }
            }
            if count_keeps(init, x) < init.len() {
                let j = count_keeps(init, x) as int;
                assert(init[j] == prev[j]);
                assert(keeps_before(prev[j], x));
            }
        } else {
            assert forall|j: int| 0 <= j < count_keeps(prev, x) implies keeps_before(#[trigger] prev[j], x) by {
                assert(init[j] == prev[j]);
            }
            assert forall|j: int| count_keeps(prev, x) <= j < prev.len() implies !keeps_before(
                #[trigger] prev[j],
                x,
            ) by {
                if j < last {
                    assert(init[j] == prev[j]);
                }
            }
        }
    }
}

/// The candidate list comes out ranked: largest area first, ties broken by
/// higher minimum refresh; nothing is lost or added.
pub proof fn lemma_candidates_ranked(s: Seq<CandidateView>)
    ensures
        ranked(sort_candidates(s)),
        sort_candidates(s).len() == s.len(),
        sort_candidates(s).to_multiset() == s.to_multiset(),
    decreases s.len(),
{
    if s.len() > 0 {
        let init = s.drop_last();
        let x = s.last();
        lemma_candidates_ranked(init);
        let prev = sort_candidates(init);
        lemma_keeps_prefix(prev, x);
        let pos = count_keeps(prev, x) as int;
        let t = prev.insert(pos, x);
        assert(t == sort_candidates(s));
        assert forall|i: int, j: int| 0 <= i < j < t.len() implies keeps_before(#[trigger] t[i], #[trigger] t[j]) by {
            if j < pos {
                assert(t[i] == prev[i] && t[j] == prev[j]);
            } else if j == pos {
                assert(t[i] == prev[i]);
            } else if i < pos {
                assert(t[i] == prev[i] && t[j] == prev[j - 1]);
            } else if i == pos {
                assert(t[j] == prev[j - 1]);
                assert(!keeps_before(prev[j - 1], x));
            } else {
                assert(t[i] == prev[i - 1] && t[j] == prev[j - 1]);
            }
        }
        vstd::seq_lib::to_multiset_insert(prev, pos, x);
        vstd::seq_lib::to_multiset_build(init, x);
        assert(s =~= init.push(x));
    }
}

/// The monitor has a progressive mode of size `r`.
pub open spec fn offers(m: MonitorView, r: (i32, i32)) -> bool {
    exists|t: int|
        0 <= t < m.modes.len() && !(#[trigger] m.modes[t]).is_interlaced && (m.modes[t].width, m.modes[t].height)
            == r
}

proof fn lemma_offers(m: MonitorView, r: (i32, i32))
    ensures
        mon_resolutions(m).contains(r) <==> offers(m, r),
{
    crate::monitor::lemma_resolutions_law(m.modes, m.modes.len() as int);
    reveal(crate::monitor::res_cover);
    let res = mon_resolutions(m);
    if res.contains(r) {
        let k = choose|k: int| 0 <= k < res.len() && res[k] == r;
        assert(exists|t: int|
            0 <= t < m.modes.len() && !(#[trigger] m.modes[t]).is_interlaced && (m.modes[t].width, m.modes[t].height)
                == #[trigger] res[k]);
    }
    if offers(m, r) {
        let t = choose|t: int|
            0 <= t < m.modes.len() && !(#[trigger] m.modes[t]).is_interlaced && (m.modes[t].width, m.modes[t].height)
                == r;
        assert(!m.modes[t].is_interlaced);
    }
}

/// Every monitor has a progressive mode of size `r`.
pub open spec fn offered_by_all(ms: Seq<MonitorView>, r: (i32, i32)) -> bool {
    forall|i: int| 0 <= i < ms.len() ==> offers(#[trigger] ms[i], r)
}

/// A group of at least two monitors has mirror candidates exactly when
/// some resolution is offered by a progressive mode of every member.
pub proof fn lemma_mirror_exists(ms: Seq<MonitorView>)
    requires
        ms.len() >= 2,
    ensures
        mirror_spec(ms) is Ok <==> exists|r: (i32, i32)| #[trigger] offered_by_all(ms, r),
{
    let pred = |r: (i32, i32)| shared_by_rest(ms, r);
    let first = mon_resolutions(ms[0]);
    let common = common_resolutions(ms);
    assert(common == first.filter(pred));
    if common.len() > 0 {
        first.lemma_filter_pred(pred, 0);
        first.lemma_filter_contains_rev(pred, common[0]);
        let r = common[0];
        assert(common.contains(r));
        assert forall|i: int| 0 <= i < ms.len() implies offers(#[trigger] ms[i], r) by {
            lemma_offers(ms[i], r);
            if i >= 1 {
                assert(mon_resolutions(ms[i]).contains(r));
            }
        }
        assert(offered_by_all(ms, r));
    }
    if exists|r: (i32, i32)| #[trigger] offered_by_all(ms, r) {
        let r = choose|r: (i32, i32)| #[trigger] offered_by_all(ms, r);
        assert forall|i: int| 1 <= i < ms.len() implies mon_resolutions(#[trigger] ms[i]).contains(r) by {
            lemma_offers(ms[i], r);
            assert(offers(ms[i], r));
        }
        assert(offers(ms[0], r));
        lemma_offers(ms[0], r);
        let k = choose|k: int| 0 <= k < first.len() && first[k] == r;
        assert(pred(first[k]));
        first.lemma_filter_contains(pred, k);
        assert(common.contains(r));
    }
}

proof fn lemma_sorted_from(s: Seq<CandidateView>)
    ensures
        sort_candidates(s).len() == s.len(),
        forall|k: int| 0 <= k < sort_candidates(s).len() ==> s.contains(#[trigger] sort_candidates(s)[k]),
    decreases s.len(),
{
    if s.len() > 0 {
        let p = s.drop_last();
        lemma_sorted_from(p);
        let prev = sort_candidates(p);
        lemma_count_keeps_bound(prev, s.last());
        let pos = count_keeps(prev, s.last()) as int;
        let out = sort_candidates(s);
        assert(out == prev.insert(pos, s.last()));
        assert forall|k: int| 0 <= k < out.len() implies s.contains(#[trigger] out[k]) by {
            if k == pos {
                assert(s[s.len() - 1] == out[k]);
            } else {
                let kk = if k < pos { k } else { k - 1 };
                assert(out[k] == prev[kk]);
                assert(p.contains(prev[kk]));
                let t = choose|t: int| 0 <= t < p.len() && p[t] == prev[kk];
                assert(s[t] == p[t]);
            }
        }
    }
}

proof fn lemma_count_keeps_bound(prev: Seq<CandidateView>, x: CandidateView)
    ensures
        count_keeps(prev, x) <= prev.len(),
    decreases prev.len(),
{
    if prev.len() > 0 {
        lemma_count_keeps_bound(prev.drop_last(), x);
    }
}

/// Candidate `c` lists one member per monitor of `ms`, in order: the
/// monitor's connector with its best mode at the candidate's resolution.
pub open spec fn members_match(ms: Seq<MonitorView>, c: CandidateView) -> bool {
    &&& c.members.len() == ms.len()
    &&& forall|i: int|
        0 <= i < ms.len() ==> {
            &&& best_at(ms[i], c.width, c.height) is Some
            &&& (#[trigger] c.members[i]).connector == ms[i].identity.connector@
            &&& c.members[i].mode_id == best_at(ms[i], c.width, c.height)->0.id
            &&& c.members[i].refresh == best_at(ms[i], c.width, c.height)->0.refresh
        }
}

/// Every mirror candidate lists one member per monitor, in order: the
/// monitor's connector with its best mode at the candidate's resolution.
pub proof fn lemma_mirror_members(ms: Seq<MonitorView>)
    ensures
        mirror_spec(ms) matches Ok(cs) ==> forall|k: int| 0 <= k < cs.len() ==> members_match(ms, #[trigger] cs[k]),
{
    if let Ok(cs) = mirror_spec(ms) {
        let f = |r: (i32, i32)| candidate_at(ms, r);
        let fm = common_resolutions(ms).filter_map(f);
        assert(cs == sort_candidates(fm));
        lemma_sorted_from(fm);
        assert forall|k: int| 0 <= k < cs.len() implies members_match(ms, #[trigger] cs[k]) by {
            let c = cs[k];
            assert(fm.contains(c));
            common_resolutions(ms).lemma_filter_map_contains(f, c);
            let r = choose|r: (i32, i32)| #[trigger] common_resolutions(ms).contains(r) && f(r) == Some(c);
            assert(candidate_at(ms, r) == Some(c));
            assert(c.width == r.0 && c.height == r.1);
        }
    }
}

proof fn lemma_best_at_some(m: MonitorView, w: i32, h: i32, n: int, t: int)
    requires
        0 <= t < n <= m.modes.len(),
        m.modes[t].width == w,
        m.modes[t].height == h,
    ensures
        best_mode_upto(m.modes, w, h, n) is Some,
    decreases n,
{
    if t < n - 1 {
        lemma_best_at_some(m, w, h, n - 1, t);
    }
}

proof fn lemma_filter_map_has<A, B>(s: Seq<A>, f: spec_fn(A) -> Option<B>, x: A)
    requires
        s.contains(x),
        f(x) is Some,
    ensures
        s.filter_map(f).contains(f(x)->0),
    decreases s.len(),
{
    let rest = s.drop_last();
    if s.last() == x {
        assert(s.filter_map(f) == rest.filter_map(f) + seq![f(x)->0]);
        assert(s.filter_map(f)[rest.filter_map(f).len() as int] == f(x)->0);
    } else {
        let k = choose|k: int| 0 <= k < s.len() && s[k] == x;
        assert(rest[k] == x);
        lemma_filter_map_has(rest, f, x);
        let j = choose|j: int| 0 <= j < rest.filter_map(f).len() && rest.filter_map(f)[j] == f(x)->0;
        match f(s.last()) {
            Some(y) => {
                assert(s.filter_map(f) == rest.filter_map(f) + seq![y]);
                assert(s.filter_map(f)[j] == f(x)->0);
            },
            None => {},
        }
    }
}

/// The mirror candidates are exactly the resolutions that a progressive
/// mode of every member offers: each candidate's resolution is offered by
/// all members, and each resolution offered by all members has a
/// candidate.
pub proof fn lemma_mirror_covers(ms: Seq<MonitorView>)
    ensures
        mirror_spec(ms) matches Ok(cs) ==> {
            &&& forall|k: int|
                0 <= k < cs.len() ==> offered_by_all(ms, (#[trigger] cs[k].width, cs[k].height))
            &&& forall|r: (i32, i32)|
                #[trigger] offered_by_all(ms, r) ==> exists|k: int|
                    0 <= k < cs.len() && cs[k].width == r.0 && cs[k].height == r.1
        },
{
    if let Ok(cs) = mirror_spec(ms) {
        let f = |r: (i32, i32)| candidate_at(ms, r);
        let pred = |r: (i32, i32)| shared_by_rest(ms, r);
        let first = mon_resolutions(ms[0]);
        let common = common_resolutions(ms);
        let fm = common.filter_map(f);
        assert(cs == sort_candidates(fm));
        lemma_candidates_ranked(fm);
        lemma_sorted_from(fm);
        assert forall|k: int| 0 <= k < cs.len() implies offered_by_all(ms, (#[trigger] cs[k].width, cs[k].height)) by {
            let c = cs[k];
            assert(fm.contains(c));
            common.lemma_filter_map_contains(f, c);
            let r = choose|r: (i32, i32)| #[trigger] common.contains(r) && f(r) == Some(c);
            assert(c.width == r.0 && c.height == r.1);
            first.lemma_filter_contains_rev(pred, r);
            let j = choose|j: int| 0 <= j < common.len() && common[j] == r;
            first.lemma_filter_pred(pred, j);
            assert forall|i: int| 0 <= i < ms.len() implies offers(#[trigger] ms[i], r) by {
                lemma_offers(ms[i], r);
                if i == 0 {
                    lemma_offers(ms[0], r);
                }
            }
        }
        assert forall|r: (i32, i32)| #[trigger] offered_by_all(ms, r) implies exists|k: int|
            0 <= k < cs.len() && cs[k].width == r.0 && cs[k].height == r.1 by {
            assert forall|i: int| 0 <= i < ms.len() implies mon_resolutions(#[trigger] ms[i]).contains(r) && best_at(ms[i], r.0, r.1) is Some by {
                lemma_offers(ms[i], r);
                assert(offers(ms[i], r));
                let t = choose|t: int|
                    0 <= t < ms[i].modes.len() && !(#[trigger] ms[i].modes[t]).is_interlaced && (ms[i].modes[t].width, ms[i].modes[t].height)
                        == r;
                lemma_best_at_some(ms[i], r.0, r.1, ms[i].modes.len() as int, t);
            }
            assert(ms.len() > 0) by {
                assert(mirror_spec(ms) is Ok);
            }
            assert(first.contains(r));
            let t0 = choose|t: int| 0 <= t < first.len() && first[t] == r;
            first.lemma_filter_contains(pred, t0);
            assert(common.contains(r));
            assert(f(r) is Some);
            lemma_filter_map_has(common, f, r);
            let c = f(r)->0;
            assert(c.width == r.0 && c.height == r.1);
            vstd::seq_lib::to_multiset_contains(fm, c);
            vstd::seq_lib::to_multiset_contains(cs, c);
            assert(cs.contains(c));
        }
    }
}

proof fn lemma_filter_distinct<A>(s: Seq<A>, p: spec_fn(A) -> bool)
    requires
        s.no_duplicates(),
    ensures
        s.filter(p).no_duplicates(),
    decreases s.len(),
{
    reveal(Seq::filter);
    if s.len() > 0 {
        let rest = s.drop_last();
        lemma_filter_distinct(rest, p);
        if p(s.last()) {
            assert(s.filter(p) == rest.filter(p).push(s.last()));
            if rest.filter(p).contains(s.last()) {
                rest.lemma_filter_contains_rev(p, s.last());
                let k = choose|k: int| 0 <= k < rest.len() && rest[k] == s.last();
                assert(s[k] == s[s.len() - 1]);
            }
        }
    }
}

/// The resolution a candidate stands for.
pub open spec fn candidate_size(c: CandidateView) -> (i32, i32) {
    (c.width, c.height)
}

proof fn lemma_candidates_distinct(ms: Seq<MonitorView>, s: Seq<(i32, i32)>)
    requires
        s.no_duplicates(),
    ensures
        s.filter_map(|r: (i32, i32)| candidate_at(ms, r)).map_values(|c: CandidateView| candidate_size(c)).no_duplicates(),
    decreases s.len(),
{
    let f = |r: (i32, i32)| candidate_at(ms, r);
    let g = |c: CandidateView| candidate_size(c);
    if s.len() > 0 {
        let rest = s.drop_last();
        lemma_candidates_distinct(ms, rest);
        let prev = rest.filter_map(f);
        match f(s.last()) {
            Some(c) => {
                assert(s.filter_map(f) == prev + seq![c]);
                assert(s.filter_map(f).map_values(g) == prev.map_values(g).push(g(c)));
                assert(g(c) == s.last());
                assert forall|i: int| 0 <= i < prev.len() implies #[trigger] prev.map_values(g)[i] != g(c) by {
                    assert(prev.contains(prev[i]));
                    rest.lemma_filter_map_contains(f, prev[i]);
                    let r = choose|r: (i32, i32)| #[trigger] rest.contains(r) && f(r) == Some(prev[i]);
                    let k = choose|k: int| 0 <= k < rest.len() && rest[k] == r;
                    assert(s[k] == r);
                    assert(g(prev[i]) == r);
                }
            },
            None => {
                assert(s.filter_map(f) == prev);
            },
        }
    }
}

/// Each resolution has at most one mirror candidate.
pub proof fn lemma_mirror_sizes_distinct(ms: Seq<MonitorView>)
    ensures
        mirror_spec(ms) matches Ok(cs) ==> forall|i: int, j: int|
            0 <= i < j < cs.len() ==> candidate_size(#[trigger] cs[i]) != candidate_size(#[trigger] cs[j]),
{
    if let Ok(cs) = mirror_spec(ms) {
        let f = |r: (i32, i32)| candidate_at(ms, r);
        let g = |c: CandidateView| candidate_size(c);
        let pred = |r: (i32, i32)| shared_by_rest(ms, r);
        let first = mon_resolutions(ms[0]);
        let common = common_resolutions(ms);
        let fm = common.filter_map(f);
        assert(cs == sort_candidates(fm));
        crate::monitor::lemma_resolutions_law(ms[0].modes, ms[0].modes.len() as int);
        lemma_filter_distinct(first, pred);
        lemma_candidates_distinct(ms, common);
        assert(fm.no_duplicates()) by {
            assert forall|i: int, j: int| 0 <= i < fm.len() && 0 <= j < fm.len() && i != j implies fm[i] != fm[j] by {
                assert(fm.map_values(g)[i] != fm.map_values(g)[j]);
            }
        }
        lemma_candidates_ranked(fm);
        lemma_sorted_from(fm);
        fm.lemma_multiset_has_no_duplicates();
        assert forall|x: CandidateView| cs.to_multiset().contains(x) implies cs.to_multiset().count(x) == 1 by {
            assert(fm.to_multiset().contains(x));
        }
        cs.lemma_multiset_has_no_duplicates_conv();
        assert forall|i: int, j: int| 0 <= i < j < cs.len() implies candidate_size(#[trigger] cs[i])
            != candidate_size(#[trigger] cs[j]) by {
            assert(fm.contains(cs[i]));
            assert(fm.contains(cs[j]));
            let a = choose|a: int| 0 <= a < fm.len() && fm[a] == cs[i];
            let b = choose|b: int| 0 <= b < fm.len() && fm[b] == cs[j];
            assert(cs[i] != cs[j]);
            assert(a != b);
            assert(fm.map_values(g)[a] != fm.map_values(g)[b]);
        }
    }
}

proof fn lemma_min_refresh(modes: Seq<ModeView>)
    ensures
        forall|i: int| 0 <= i < modes.len() ==> min_refresh_of(modes) <= (#[trigger] modes[i]).refresh,
        modes.len() > 0 ==> exists|i: int| 0 <= i < modes.len() && min_refresh_of(modes) == (#[trigger] modes[i]).refresh,
    decreases modes.len(),
{
    if modes.len() > 0 {
        let init = modes.drop_last();
        lemma_min_refresh(init);
        assert forall|i: int| 0 <= i < modes.len() implies min_refresh_of(modes) <= (#[trigger] modes[i]).refresh by {
            if i < init.len() {
                assert(init[i] == modes[i]);
            }
        }
        if init.len() > 0 && min_refresh_of(modes) == min_refresh_of(init) {
            let i = choose|i: int| 0 <= i < init.len() && min_refresh_of(init) == (#[trigger] init[i]).refresh;
            assert(init[i] == modes[i]);
        } else {
            assert(min_refresh_of(modes) == modes[modes.len() - 1].refresh);
        }
    }
}

/// A mirror candidate's minimum refresh is the lowest refresh among its
/// members, and its common scales are the scales of the first member's
/// mode that every member's mode supports (within the scale tolerance).
pub proof fn lemma_candidate_refresh_scales(ms: Seq<MonitorView>)
    ensures
        mirror_spec(ms) matches Ok(cs) ==> forall|k: int|
            0 <= k < cs.len() ==> {
                let c = #[trigger] cs[k];
                &&& forall|i: int| 0 <= i < c.members.len() ==> c.min_refresh <= (#[trigger] c.members[i]).refresh
                &&& exists|i: int| 0 <= i < c.members.len() && c.min_refresh == (#[trigger] c.members[i]).refresh
                &&& forall|s: i64|
                    #[trigger] c.common_scales.contains(s) <==> best_at(ms[0], c.width, c.height)->0.scales.contains(s)
                        && forall|i: int|
                        0 <= i < ms.len() ==> scale_listed(best_at(#[trigger] ms[i], c.width, c.height)->0.scales, s as int)
            },
{
    if let Ok(cs) = mirror_spec(ms) {
        let f = |r: (i32, i32)| candidate_at(ms, r);
        let fm = common_resolutions(ms).filter_map(f);
        assert(cs == sort_candidates(fm));
        lemma_sorted_from(fm);
        assert forall|k: int| 0 <= k < cs.len() implies {
            let c = #[trigger] cs[k];
            &&& forall|i: int| 0 <= i < c.members.len() ==> c.min_refresh <= (#[trigger] c.members[i]).refresh
            &&& exists|i: int| 0 <= i < c.members.len() && c.min_refresh == (#[trigger] c.members[i]).refresh
            &&& forall|s: i64|
                #[trigger] c.common_scales.contains(s) <==> best_at(ms[0], c.width, c.height)->0.scales.contains(s)
                    && forall|i: int|
                    0 <= i < ms.len() ==> scale_listed(best_at(#[trigger] ms[i], c.width, c.height)->0.scales, s as int)
        } by {
            let c = cs[k];
            assert(fm.contains(c));
            common_resolutions(ms).lemma_filter_map_contains(f, c);
            let r = choose|r: (i32, i32)| #[trigger] common_resolutions(ms).contains(r) && f(r) == Some(c);
            assert(candidate_at(ms, r) == Some(c));
            let modes = Seq::new(ms.len(), |i: int| best_at(ms[i], r.0, r.1)->0);
            assert(c.min_refresh == min_refresh_of(modes));
            lemma_min_refresh(modes);
            assert forall|i: int| 0 <= i < c.members.len() implies c.min_refresh <= (#[trigger] c.members[i]).refresh by {
                assert(modes[i].refresh == c.members[i].refresh);
            }
            assert(ms.len() >= 2);
            let i0 = choose|i: int| 0 <= i < modes.len() && min_refresh_of(modes) == (#[trigger] modes[i]).refresh;
            assert(c.members[i0].refresh == modes[i0].refresh);
            let lists = modes.map_values(|m: ModeView| m.scales);
            let sp = |s: i64| scale_shared(lists, s);
            assert(c.common_scales == lists[0].filter(sp));
            assert forall|s: i64| #[trigger] c.common_scales.contains(s) <==> best_at(ms[0], c.width, c.height)->0.scales.contains(s)
                && forall|i: int|
                0 <= i < ms.len() ==> scale_listed(best_at(#[trigger] ms[i], c.width, c.height)->0.scales, s as int) by {
                assert(lists[0] == best_at(ms[0], c.width, c.height)->0.scales);
                if c.common_scales.contains(s) {
                    lists[0].lemma_filter_contains_rev(sp, s);
                    let t = choose|t: int| 0 <= t < c.common_scales.len() && c.common_scales[t] == s;
                    lists[0].lemma_filter_pred(sp, t);
                    assert forall|i: int| 0 <= i < ms.len() implies scale_listed(
                        best_at(#[trigger] ms[i], c.width, c.height)->0.scales,
                        s as int,
                    ) by {
                        assert(lists[i] == best_at(ms[i], c.width, c.height)->0.scales);
                        if i == 0 {
                            let u = choose|u: int| 0 <= u < lists[0].len() && lists[0][u] == s;
                            assert(approx(lists[0][u] as int, s as int, SCALE_EPS as int));
                        } else {
                            assert(scale_listed(lists[i], s as int));
                        }
                    }
                }
                if best_at(ms[0], c.width, c.height)->0.scales.contains(s) && forall|i: int|
                    0 <= i < ms.len() ==> scale_listed(best_at(#[trigger] ms[i], c.width, c.height)->0.scales, s as int) {
                    assert forall|i: int| 1 <= i < lists.len() implies scale_listed(#[trigger] lists[i], s as int) by {
                        assert(lists[i] == best_at(ms[i], c.width, c.height)->0.scales);
                    }
                    let u = choose|u: int| 0 <= u < lists[0].len() && lists[0][u] == s;
                    lists[0].lemma_filter_contains(sp, u);
                }
            }
        }
    }
}

} // verus!
