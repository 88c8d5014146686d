//! A snapshot of the compositor's display state.
use vstd::prelude::*;
use crate::layout::{find_monitor, find_monitor_index, monitors_view, primary_index, DisplayLayout, LayoutView, LogicalDisplay, disabled_of};
use crate::mode::{clone_extra, ExtraProps};
use crate::monitor::{MonitorView, PhysicalMonitor};

verus! {

/// `ApplyMonitorsConfig` method values.
#[derive(Debug, Clone, Copy, PartialEq, Eq, Structural, Hash)]
pub enum ApplyMethod {
    /// Full validation dry-run; changes nothing.
    Verify,
    /// Applies for this session only.
    Temporary,
    /// Applies and starts the compositor's own keep-or-revert confirmation.
    Persistent,
}

pub open spec fn apply_method_wire(m: ApplyMethod) -> u32 {
    match m {
        ApplyMethod::Verify => 0,
        ApplyMethod::Temporary => 1,
        ApplyMethod::Persistent => 2,
    }
}

impl ApplyMethod {
    pub fn as_u32(self) -> (r: u32)
        ensures
            r == apply_method_wire(self),
    {
        match self {
            ApplyMethod::Verify => 0,
            ApplyMethod::Temporary => 1,
            ApplyMethod::Persistent => 2,
        }
    }
}

/// Parsed `GetCurrentState` result.
#[derive(Debug, PartialEq)]
pub struct DisplayState {
    /// Configuration serial; applies must pass the serial of the state they
    /// were derived from.
    pub serial: u32,
    pub monitors: Vec<PhysicalMonitor>,
    pub layout: DisplayLayout,
    pub supports_changing_layout_mode: bool,
    pub global_scale_required: bool,
    /// `supports-mirroring`; absent means supported.
    pub supports_mirroring: Option<bool>,
    pub extra: ExtraProps,
}

/// Everything needed to re-apply a configuration for rollback.
#[derive(Debug, PartialEq)]
pub struct ApplySnapshot {
    pub captured_serial: u32,
    pub layout: DisplayLayout,
}

/// Copies of a list of monitors.
pub fn clone_monitors(v: &Vec<PhysicalMonitor>) -> (r: Vec<PhysicalMonitor>)
    ensures
        monitors_view(r@) == monitors_view(v@),
{
    let mut out: Vec<PhysicalMonitor> = Vec::new();
    let mut i: usize = 0;
    while i < v.len()
        invariant
            i <= v@.len(),
            out@.len() == i,
            forall|j: int| 0 <= j < i ==> (#[trigger] out@[j])@ == v@[j]@,
        decreases v@.len() - i,
    {
        out.push(v[i].clone());
        i += 1;
    }
    assert(monitors_view(out@) =~= monitors_view(v@));
    out
}

impl DisplayState {
    pub open spec fn monitors_v(&self) -> Seq<MonitorView> {
        monitors_view(self.monitors@)
    }

    /// The first monitor on `connector`.
    pub fn monitor(&self, connector: &str) -> (r: Option<&PhysicalMonitor>)
        ensures
            match find_monitor(self.monitors_v(), connector@) {
                None => r is None,
                Some(i) => r is Some && r->0@ == self.monitors_v()[i],
            },
    {
        match find_monitor_index(self.monitors.as_slice(), connector) {
            None => None,
            Some(i) => {
                assert(self.monitors_v()[i as int] == self.monitors@[i as int]@);
                Some(&self.monitors[i])
            },
        }
    }

    pub fn primary(&self) -> (r: Option<&LogicalDisplay>)
        ensures
            match primary_index(self.layout@.displays) {
                None => r is None,
                Some(i) => r is Some && r->0@ == self.layout@.displays[i],
            },
    {
        self.layout.primary()
    }

    pub fn disabled_monitors(&self) -> (r: Vec<&PhysicalMonitor>)
        ensures
            ({
                let idx = disabled_of(self.monitors_v(), self.layout@.displays, self.monitors@.len() as int);
                &&& r@.len() == idx.len()
                &&& forall|k: int| 0 <= k < idx.len() ==> (#[trigger] r@[k])@ == self.monitors@[idx[k]]@
            }),
    {
        self.layout.disabled_monitors(self.monitors.as_slice())
    }

    /// A snapshot sufficient to restore this exact configuration later.
    pub fn to_apply_snapshot(&self) -> (r: ApplySnapshot)
        ensures
            r.captured_serial == self.serial,
            r.layout@ == self.layout@,
    {
        ApplySnapshot { captured_serial: self.serial, layout: self.layout.clone() }
    }
}

impl Clone for DisplayState {
    fn clone(&self) -> (r: Self)
        ensures
            r.serial == self.serial,
            r.monitors_v() == self.monitors_v(),
            r.layout@ == self.layout@,
            r.supports_changing_layout_mode == self.supports_changing_layout_mode,
            r.global_scale_required == self.global_scale_required,
            r.supports_mirroring == self.supports_mirroring,
            r.extra@ == self.extra@,
    {
        DisplayState {
            serial: self.serial,
            monitors: clone_monitors(&self.monitors),
            layout: self.layout.clone(),
            supports_changing_layout_mode: self.supports_changing_layout_mode,
            global_scale_required: self.global_scale_required,
            supports_mirroring: self.supports_mirroring,
            extra: clone_extra(&self.extra),
        }
    }
}

impl Clone for ApplySnapshot {
    fn clone(&self) -> (r: Self)
        ensures
            r.captured_serial == self.captured_serial,
            r.layout@ == self.layout@,
    {
        ApplySnapshot { captured_serial: self.captured_serial, layout: self.layout.clone() }
    }
}

} // verus!
