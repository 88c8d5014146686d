//! Backend errors with user-friendly translations.
//!
//! Mutter reports every rejection as a D-Bus error whose message is one of
//! a known set of English strings. They are classified so the user sees
//! clear guidance instead of raw D-Bus text, with the original details
//! still available.
use vstd::prelude::*;
use crate::text::{contains_seq, lower_chars, lower_seq, push_str};

verus! {

/// Why Mutter (or client-side validation) rejected a configuration.
#[derive(Debug, Clone, Copy, PartialEq, Eq, Structural)]
pub enum RejectionKind {
    /// "The requested configuration is based on stale information".
    StaleSerial,
    /// "Monitor configuration via D-Bus is disabled" (monitors.xml policy).
    PolicyDisabled,
    /// "Logical monitors not adjacent" (also covers gaps between islands).
    NotAdjacent,
    /// "Logical monitors overlap".
    Overlap,
    /// "Config contains multiple primary logical monitors".
    MultiplePrimary,
    /// "Config is missing primary logical" monitor.
    MissingPrimary,
    /// "Scale … not valid for resolution …" / "Scale not supported by backend".
    InvalidScale,
    /// "Invalid mode …" / "Monitor mode not found".
    InvalidMode,
    /// "Monitors modes in logical monitor not equal" (mirror resolution).
    MirrorModesUnequal,
    /// "Invalid connector …" / "Monitor not found".
    UnknownMonitor,
    /// "Logical monitors positions are offset" / negative positions.
    BadPosition,
    /// "Underscanning requested but unsupported".
    Underscanning,
    /// Anything else.
    Other,
}

/// The kind of a rejection message, by the first rule (in this order)
/// whose phrase occurs in the lower-cased message.
pub open spec fn classify_spec(message: Seq<char>) -> RejectionKind {
    let m = lower_seq(message);
    if contains_seq(m, "stale information"@) {
        RejectionKind::StaleSerial
    } else if contains_seq(m, "via d-bus is disabled"@) {
        RejectionKind::PolicyDisabled
    } else if contains_seq(m, "not adjacent"@) {
        RejectionKind::NotAdjacent
    } else if contains_seq(m, "overlap"@) {
        RejectionKind::Overlap
    } else if contains_seq(m, "multiple primary"@) {
        RejectionKind::MultiplePrimary
    } else if contains_seq(m, "missing primary"@) {
        RejectionKind::MissingPrimary
    } else if contains_seq(m, "scale"@) {
        RejectionKind::InvalidScale
    } else if contains_seq(m, "modes in logical monitor not equal"@) {
        RejectionKind::MirrorModesUnequal
    } else if contains_seq(m, "invalid mode"@) || contains_seq(m, "mode not"@) {
        RejectionKind::InvalidMode
    } else if contains_seq(m, "invalid connector"@) || contains_seq(m, "monitor not found"@)
        || contains_seq(m, "not found"@) {
        RejectionKind::UnknownMonitor
    } else if contains_seq(m, "positions are offset"@) || contains_seq(m, "monitor position"@) {
        RejectionKind::BadPosition
    } else if contains_seq(m, "underscanning"@) {
        RejectionKind::Underscanning
    } else {
        RejectionKind::Other
    }
}

/// The variant name of a kind, as `Debug` writes it.
pub open spec fn kind_name(k: RejectionKind) -> Seq<char> {
    match k {
        RejectionKind::StaleSerial => "StaleSerial"@,
        RejectionKind::PolicyDisabled => "PolicyDisabled"@,
        RejectionKind::NotAdjacent => "NotAdjacent"@,
        RejectionKind::Overlap => "Overlap"@,
        RejectionKind::MultiplePrimary => "MultiplePrimary"@,
        RejectionKind::MissingPrimary => "MissingPrimary"@,
        RejectionKind::InvalidScale => "InvalidScale"@,
        RejectionKind::InvalidMode => "InvalidMode"@,
        RejectionKind::MirrorModesUnequal => "MirrorModesUnequal"@,
        RejectionKind::UnknownMonitor => "UnknownMonitor"@,
        RejectionKind::BadPosition => "BadPosition"@,
        RejectionKind::Underscanning => "Underscanning"@,
        RejectionKind::Other => "Other"@,
    }
}

impl RejectionKind {
    /// Classifies a compositor rejection message.
    pub fn classify(message: &str) -> (r: RejectionKind)
        ensures
            r == classify_spec(message@),
    {
        let m = lower_chars(message);
        if crate::text::contains_str(&m, "stale information") {
            RejectionKind::StaleSerial
        } else if crate::text::contains_str(&m, "via d-bus is disabled") {
            RejectionKind::PolicyDisabled
        } else if crate::text::contains_str(&m, "not adjacent") {
            RejectionKind::NotAdjacent
        } else if crate::text::contains_str(&m, "overlap") {
            RejectionKind::Overlap
        } else if crate::text::contains_str(&m, "multiple primary") {
            RejectionKind::MultiplePrimary
        } else if crate::text::contains_str(&m, "missing primary") {
            RejectionKind::MissingPrimary
        } else if crate::text::contains_str(&m, "scale") {
            RejectionKind::InvalidScale
        } else if crate::text::contains_str(&m, "modes in logical monitor not equal") {
            RejectionKind::MirrorModesUnequal
        } else if crate::text::contains_str(&m, "invalid mode") || crate::text::contains_str(
            &m,
            "mode not",
        ) {
            RejectionKind::InvalidMode
        } else if crate::text::contains_str(&m, "invalid connector") || crate::text::contains_str(
            &m,
            "monitor not found",
        ) || crate::text::contains_str(&m, "not found") {
            RejectionKind::UnknownMonitor
        } else if crate::text::contains_str(&m, "positions are offset") || crate::text::contains_str(
            &m,
            "monitor position",
        ) {
            RejectionKind::BadPosition
        } else if crate::text::contains_str(&m, "underscanning") {
            RejectionKind::Underscanning
        } else {
            RejectionKind::Other
        }
    }

    /// The variant name.
    pub fn name(self) -> (r: &'static str)
        ensures
            r@ == kind_name(self),
    {
        match self {
            RejectionKind::StaleSerial => "StaleSerial",
            RejectionKind::PolicyDisabled => "PolicyDisabled",
            RejectionKind::NotAdjacent => "NotAdjacent",
            RejectionKind::Overlap => "Overlap",
            RejectionKind::MultiplePrimary => "MultiplePrimary",
            RejectionKind::MissingPrimary => "MissingPrimary",
            RejectionKind::InvalidScale => "InvalidScale",
            RejectionKind::InvalidMode => "InvalidMode",
            RejectionKind::MirrorModesUnequal => "MirrorModesUnequal",
            RejectionKind::UnknownMonitor => "UnknownMonitor",
            RejectionKind::BadPosition => "BadPosition",
            RejectionKind::Underscanning => "Underscanning",
            RejectionKind::Other => "Other",
        }
    }
}

/// Guidance shown for a rejection of the given kind.
pub open spec fn friendly_text(kind: RejectionKind, message: Seq<char>) -> Seq<char> {
    match kind {
        RejectionKind::StaleSerial =>
            "The monitor configuration changed before it could be applied. The layout has been refreshed — please try again."@,
        RejectionKind::PolicyDisabled =>
            "Display configuration over D-Bus has been disabled by system policy (monitors.xml)."@,
        RejectionKind::NotAdjacent =>
            "Mutter rejected this layout because the displays are not adjacent; every display must touch another one with no gaps."@,
        RejectionKind::Overlap => "Mutter rejected this layout because displays overlap."@,
        RejectionKind::MultiplePrimary =>
            "More than one display is marked as primary; exactly one is required."@,
        RejectionKind::MissingPrimary => "No display is marked as primary; exactly one is required."@,
        RejectionKind::InvalidScale => "The selected scale is unavailable for this mode."@,
        RejectionKind::InvalidMode => "The selected mode is no longer available on one of the monitors."@,
        RejectionKind::MirrorModesUnequal =>
            "The selected displays do not share a compatible mirror resolution."@,
        RejectionKind::UnknownMonitor => "One of the monitors in this layout is no longer connected."@,
        RejectionKind::BadPosition =>
            "The layout positions are invalid; displays must start at (0, 0) without negative coordinates."@,
        RejectionKind::Underscanning => "Underscanning was requested for a monitor that does not support it."@,
        RejectionKind::Other => "The display server rejected the configuration: "@ + message,
    }
}

/// Guidance shown for a rejection of the given kind.
pub fn friendly_rejection(kind: RejectionKind, message: &str) -> (r: String)
    ensures
        r@ == friendly_text(kind, message@),
{
    let mut out = String::new();
    match kind {
        RejectionKind::StaleSerial => push_str(
            &mut out,
            "The monitor configuration changed before it could be applied. The layout has been refreshed — please try again.",
        ),
        RejectionKind::PolicyDisabled => push_str(
            &mut out,
            "Display configuration over D-Bus has been disabled by system policy (monitors.xml).",
        ),
        RejectionKind::NotAdjacent => push_str(
            &mut out,
            "Mutter rejected this layout because the displays are not adjacent; every display must touch another one with no gaps.",
        ),
        RejectionKind::Overlap => push_str(&mut out, "Mutter rejected this layout because displays overlap."),
        RejectionKind::MultiplePrimary => push_str(
            &mut out,
            "More than one display is marked as primary; exactly one is required.",
        ),
        RejectionKind::MissingPrimary => push_str(
            &mut out,
            "No display is marked as primary; exactly one is required.",
        ),
        RejectionKind::InvalidScale => push_str(&mut out, "The selected scale is unavailable for this mode."),
        RejectionKind::InvalidMode => push_str(
            &mut out,
            "The selected mode is no longer available on one of the monitors.",
        ),
        RejectionKind::MirrorModesUnequal => push_str(
            &mut out,
            "The selected displays do not share a compatible mirror resolution.",
        ),
        RejectionKind::UnknownMonitor => push_str(
            &mut out,
            "One of the monitors in this layout is no longer connected.",
        ),
        RejectionKind::BadPosition => push_str(
            &mut out,
            "The layout positions are invalid; displays must start at (0, 0) without negative coordinates.",
        ),
        RejectionKind::Underscanning => push_str(
            &mut out,
            "Underscanning was requested for a monitor that does not support it.",
        ),
        RejectionKind::Other => {
            push_str(&mut out, "The display server rejected the configuration: ");
            push_str(&mut out, message);
        },
    }
    assert(out@ =~= friendly_text(kind, message@));
    out
}

/// An error of the display backend.
#[derive(Debug, PartialEq)]
pub enum BackendError {
    /// The compositor rejected the configuration.
    Rejected { kind: RejectionKind, message: String },
    /// The D-Bus call itself failed (service missing, disconnected, …):
    /// the D-Bus error name when the peer answered with one, and the
    /// error's description.
    Dbus { error_name: Option<String>, description: String },
    /// `GetCurrentState` returned something that could not be interpreted.
    Parse(String),
    /// A value could not be encoded for D-Bus.
    Encode(String),
}

pub ghost enum BackendErrorView {
    Rejected { kind: RejectionKind, message: Seq<char> },
    Dbus { error_name: Option<Seq<char>>, description: Seq<char> },
    Parse(Seq<char>),
    Encode(Seq<char>),
}

impl View for BackendError {
    type V = BackendErrorView;

    open spec fn view(&self) -> BackendErrorView {
        match self {
            BackendError::Rejected { kind, message } => BackendErrorView::Rejected {
                kind: *kind,
                message: message@,
            },
            BackendError::Dbus { error_name, description } => BackendErrorView::Dbus {
                error_name: match error_name {
                    Some(n) => Some(n@),
                    None => None,
                },
                description: description@,
            },
            BackendError::Parse(e) => BackendErrorView::Parse(e@),
            BackendError::Encode(e) => BackendErrorView::Encode(e@),
        }
    }
}

/// `s` ends with `suffix`.
pub open spec fn ends_with(s: Seq<char>, suffix: Seq<char>) -> bool {
    s.len() >= suffix.len() && s.subrange(s.len() - suffix.len(), s.len() as int) == suffix
}

fn ends_with_exec(s: &str, suffix: &str) -> (r: bool)
    ensures
        r == ends_with(s@, suffix@),
{
    let a = crate::text::chars_of(s);
    let b = crate::text::chars_of(suffix);
    if a.len() < b.len() {
        return false;
    }
    let off = a.len() - b.len();
    let mut k: usize = 0;
    while k < b.len()
        invariant
            a@ == s@,
            b@ == suffix@,
            off == a@.len() - b@.len(),
            a@.len() <= usize::MAX,
            k <= b@.len(),
            forall|t: int| 0 <= t < k ==> a@[off + t] == b@[t],
        decreases b@.len() - k,
    {
        if a[off + k] != b[k] {
            assert(s@.subrange(s@.len() - suffix@.len(), s@.len() as int)[k as int] != suffix@[k as int]);
            return false;
        }
        k += 1;
    }
    assert(s@.subrange(s@.len() - suffix@.len(), s@.len() as int) =~= suffix@);
    true
}

/// A D-Bus error answered by the peer is a rejection when its name marks
/// access denial, invalid arguments or failure; its message is then
/// classified.
pub open spec fn apply_error_spec(error_name: Option<Seq<char>>, detail: Option<Seq<char>>, description: Seq<char>) -> BackendErrorView {
    match error_name {
        Some(n) => if ends_with(n, "AccessDenied"@) || ends_with(n, "InvalidArgs"@) || ends_with(n, "Failed"@) {
            let message = match detail {
                Some(d) => d,
                None => Seq::empty(),
            };
            BackendErrorView::Rejected { kind: classify_spec(message), message }
        } else {
            BackendErrorView::Dbus { error_name, description }
        },
        None => BackendErrorView::Dbus { error_name, description },
    }
}

impl BackendError {
    /// Classifies a failed `ApplyMonitorsConfig` call from the D-Bus error
    /// name (when the peer answered with an error), its detail message, and
    /// the error's description.
    pub fn from_apply_error(error_name: Option<String>, detail: Option<String>, description: String) -> (r: BackendError)
        ensures
            r@ == apply_error_spec(
                match error_name {
                    Some(n) => Some(n@),
                    None => None,
                },
                match detail {
                    Some(d) => Some(d@),
                    None => None,
                },
                description@,
            ),
    {
        match &error_name {
            Some(n) => {
                if ends_with_exec(n.as_str(), "AccessDenied") || ends_with_exec(n.as_str(), "InvalidArgs")
                    || ends_with_exec(n.as_str(), "Failed") {
                    let message = match detail {
                        Some(d) => d,
                        None => String::new(),
                    };
                    let kind = RejectionKind::classify(message.as_str());
                    return BackendError::Rejected { kind, message };
                }
            },
            None => {},
        }
        BackendError::Dbus { error_name, description }
    }

    /// True when the D-Bus peer denied the call outright (e.g. GNOME
    /// Shell's sender allowlist for `ShowMonitorLabels`).
    pub fn is_access_denied(&self) -> (r: bool)
        ensures
            r == match self@ {
                BackendErrorView::Rejected { kind, .. } => kind == RejectionKind::PolicyDisabled,
                BackendErrorView::Dbus { error_name, .. } => match error_name {
                    Some(n) => ends_with(n, "AccessDenied"@),
                    None => false,
                },
                _ => false,
            },
    {
        match self {
            BackendError::Rejected { kind, .. } => *kind == RejectionKind::PolicyDisabled,
            BackendError::Dbus { error_name, .. } => match error_name {
                Some(n) => ends_with_exec(n.as_str(), "AccessDenied"),
                None => false,
            },
            _ => false,
        }
    }

    /// Technical details for the expandable section of error dialogs.
    pub fn technical_details(&self) -> (r: String)
        ensures
            r@ == match self@ {
                BackendErrorView::Rejected { kind, message } => "Mutter rejection ("@ + kind_name(kind)
                    + "): "@ + message,
                BackendErrorView::Dbus { description, .. } => "D-Bus error: "@ + description,
                BackendErrorView::Parse(e) => "Parse error: "@ + e,
                BackendErrorView::Encode(e) => "Encode error: "@ + e,
            },
    {
        let mut out = String::new();
        match self {
            BackendError::Rejected { kind, message } => {
                push_str(&mut out, "Mutter rejection (");
                push_str(&mut out, kind.name());
                push_str(&mut out, "): ");
                push_str(&mut out, message.as_str());
            },
            BackendError::Dbus { description, .. } => {
                push_str(&mut out, "D-Bus error: ");
                push_str(&mut out, description.as_str());
            },
            BackendError::Parse(e) => {
                push_str(&mut out, "Parse error: ");
                push_str(&mut out, e.as_str());
            },
            BackendError::Encode(e) => {
                push_str(&mut out, "Encode error: ");
                push_str(&mut out, e.as_str());
            },
        }
        assert(out@ =~= match self@ {
            BackendErrorView::Rejected { kind, message } => "Mutter rejection ("@ + kind_name(kind) + "): "@
                + message,
            BackendErrorView::Dbus { description, .. } => "D-Bus error: "@ + description,
            BackendErrorView::Parse(e) => "Parse error: "@ + e,
            BackendErrorView::Encode(e) => "Encode error: "@ + e,
        });
        out
    }

    /// The user-facing message.
    pub fn message(&self) -> (r: String)
        ensures
            r@ == match self@ {
                BackendErrorView::Rejected { kind, message } => friendly_text(kind, message),
                BackendErrorView::Dbus { description, .. } => "could not talk to the display server: "@
                    + description,
                BackendErrorView::Parse(e) => "could not interpret the display server's state: "@ + e,
                BackendErrorView::Encode(e) => "could not encode the configuration: "@ + e,
            },
    {
        match self {
            BackendError::Rejected { kind, message } => friendly_rejection(*kind, message.as_str()),
            BackendError::Dbus { description, .. } => {
                let mut out = String::new();
                push_str(&mut out, "could not talk to the display server: ");
                push_str(&mut out, description.as_str());
                out
            },
            BackendError::Parse(e) => {
                let mut out = String::new();
                push_str(&mut out, "could not interpret the display server's state: ");
                push_str(&mut out, e.as_str());
                out
            },
            BackendError::Encode(e) => {
                let mut out = String::new();
                push_str(&mut out, "could not encode the configuration: ");
                push_str(&mut out, e.as_str());
                out
            },
        }
    }
}

} // verus!
