//! User preferences: friendly monitor names, KVM overrides, app settings.
use vstd::prelude::*;
use crate::identity::str_eq;
use crate::monitor::{MonitorView, PhysicalMonitor};
use crate::text::{chars_of, push_str, trim_chars, trim_seq};

verus! {

/// Seconds before an unconfirmed configuration is reverted, by default.
pub const DEFAULT_CONFIRM_SECONDS: u32 = 30;

/// Seconds before an unconfirmed configuration is reverted when the
/// preferences do not say.
pub fn default_confirm_seconds() -> (r: u32)
    ensures
        r == DEFAULT_CONFIRM_SECONDS,
{
    DEFAULT_CONFIRM_SECONDS
}

/// Per-monitor preferences, keyed by the monitor's stable key.
#[derive(Debug, PartialEq, Eq)]
pub struct MonitorPrefs {
    /// User-assigned friendly name (e.g. `KVM`, `Main Monitor`).
    pub alias: Option<String>,
    /// User override for the KVM heuristic; `None` = automatic.
    pub is_kvm: Option<bool>,
}

pub ghost struct MonitorPrefsView {
    pub alias: Option<Seq<char>>,
    pub is_kvm: Option<bool>,
}

impl View for MonitorPrefs {
    type V = MonitorPrefsView;

    open spec fn view(&self) -> MonitorPrefsView {
        MonitorPrefsView {
            alias: match &self.alias {
                Some(a) => Some(a@),
                None => None,
            },
            is_kvm: self.is_kvm,
        }
    }
}

pub open spec fn default_prefs() -> MonitorPrefsView {
    MonitorPrefsView { alias: None, is_kvm: None }
}

impl Default for MonitorPrefs {
    fn default() -> (r: Self)
        ensures
            r@ == default_prefs(),
    {
        MonitorPrefs { alias: None, is_kvm: None }
    }
}

impl Clone for MonitorPrefs {
    fn clone(&self) -> (r: Self)
        ensures
            r@ == self@,
    {
        MonitorPrefs {
            alias: match &self.alias {
                Some(a) => Some(a.clone()),
                None => None,
            },
            is_kvm: self.is_kvm,
        }
    }
}

/// Application preferences. `monitors` holds one entry per key.
#[derive(Debug, PartialEq)]
pub struct AppPrefs {
    /// Seconds before an unconfirmed configuration is reverted.
    pub confirm_seconds: u32,
    pub monitors: Vec<(String, MonitorPrefs)>,
}

pub open spec fn keys_of(s: Seq<(String, MonitorPrefs)>) -> Seq<Seq<char>> {
    s.map_values(|e: (String, MonitorPrefs)| e.0@)
}

/// The per-monitor entries as a map from key to preferences.
pub open spec fn prefs_map(s: Seq<(String, MonitorPrefs)>) -> Map<Seq<char>, MonitorPrefsView>
    decreases s.len(),
{
    if s.len() == 0 {
        Map::empty()
    } else {
        prefs_map(s.drop_last()).insert(s.last().0@, s.last().1@)
    }
}

impl AppPrefs {
    /// Each key occurs once.
    pub open spec fn wf(&self) -> bool {
        keys_of(self.monitors@).no_duplicates()
    }

    pub open spec fn map(&self) -> Map<Seq<char>, MonitorPrefsView> {
        prefs_map(self.monitors@)
    }
}

impl Default for AppPrefs {
    fn default() -> (r: Self)
        ensures
            r.confirm_seconds == DEFAULT_CONFIRM_SECONDS,
            r.monitors@.len() == 0,
            no_default_entry(r.map()),
    {
        let r = AppPrefs { confirm_seconds: default_confirm_seconds(), monitors: Vec::new() };
        assert(r.map() =~= Map::empty());
        r
    }
}

/// The map after replacing the entry of `key` by `p`; an entry equal to the
/// default is dropped.
pub open spec fn stored(m: Map<Seq<char>, MonitorPrefsView>, key: Seq<char>, p: MonitorPrefsView) -> Map<Seq<char>, MonitorPrefsView> {
    if p == default_prefs() {
        m.remove(key)
    } else {
        m.insert(key, p)
    }
}

/// The current entry of `key`, or the default.
pub open spec fn entry_of(m: Map<Seq<char>, MonitorPrefsView>, key: Seq<char>) -> MonitorPrefsView {
    if m.contains_key(key) {
        m[key]
    } else {
        default_prefs()
    }
}

/// An alias is kept unless it is blank.
pub open spec fn kept_alias(a: Option<Seq<char>>) -> Option<Seq<char>> {
    match a {
        Some(s) => if trim_seq(s).len() > 0 {
            Some(s)
        } else {
            None
        },
        None => None,
    }
}

/// Display name of a monitor: alias, else the compositor's display name,
/// else `vendor product`, else the connector.
pub open spec fn display_name_of(m: Map<Seq<char>, MonitorPrefsView>, mon: MonitorView) -> Seq<char> {
    let key = mon.identity.stable_key_view();
    if m.contains_key(key) && m[key].alias is Some {
        m[key].alias->0
    } else if mon.display_name is Some {
        mon.display_name->0
    } else if mon.identity.has_edid_view() {
        mon.identity.vendor@ + " "@ + mon.identity.product@
    } else {
        mon.identity.connector@
    }
}

/// The KVM status of the monitor can be decided: the user set it, or the
/// heuristic can group the monitor's serial.
pub open spec fn kvm_decidable(m: Map<Seq<char>, MonitorPrefsView>, mon: MonitorView) -> bool {
    let key = mon.identity.stable_key_view();
    (m.contains_key(key) && m[key].is_kvm is Some) || crate::identity::serial_groupable(mon.identity.serial@)
}

/// KVM status: the user override, else the heuristic.
pub open spec fn is_kvm_of(m: Map<Seq<char>, MonitorPrefsView>, mon: MonitorView) -> bool {
    let key = mon.identity.stable_key_view();
    if m.contains_key(key) && m[key].is_kvm is Some {
        m[key].is_kvm->0
    } else {
        mon.kvm_score() >= 2
    }
}

proof fn lemma_map_first(s: Seq<(String, MonitorPrefs)>, k: int)
    requires
        keys_of(s).no_duplicates(),
        0 <= k < s.len(),
    ensures
        prefs_map(s).contains_key(s[k].0@),
        prefs_map(s)[s[k].0@] == s[k].1@,
    decreases s.len(),
{
    let init = s.drop_last();
    if k < s.len() - 1 {
        assert(keys_of(init) =~= keys_of(s).drop_last());
        assert(init[k] == s[k]);
        lemma_map_first(init, k);
        assert(keys_of(s)[k] != keys_of(s)[s.len() - 1]);
    }
}

proof fn lemma_map_absent(s: Seq<(String, MonitorPrefs)>, key: Seq<char>)
    requires
        forall|j: int| 0 <= j < s.len() ==> (#[trigger] s[j]).0@ != key,
    ensures
        !prefs_map(s).contains_key(key),
    decreases s.len(),
{
    if s.len() > 0 {
        let init = s.drop_last();
        assert forall|j: int| 0 <= j < init.len() implies (#[trigger] init[j]).0@ != key by {
            assert(init[j] == s[j]);
        }
        lemma_map_absent(init, key);
    }
}

/// Replacing entry `k` by `(key, p)` with the same key updates the map.
proof fn lemma_map_update(s: Seq<(String, MonitorPrefs)>, k: int, e: (String, MonitorPrefs))
    requires
        keys_of(s).no_duplicates(),
        0 <= k < s.len(),
        e.0@ == s[k].0@,
    ensures
        prefs_map(s.update(k, e)) == prefs_map(s).insert(e.0@, e.1@),
        keys_of(s.update(k, e)) == keys_of(s),
    decreases s.len(),
{
    let t = s.update(k, e);
    assert(keys_of(t) =~= keys_of(s));
    if k == s.len() - 1 {
        assert(t.drop_last() =~= s.drop_last());
        assert(prefs_map(t) =~= prefs_map(s).insert(e.0@, e.1@));
    } else {
        let init = s.drop_last();
        assert(keys_of(init) =~= keys_of(s).drop_last());
        assert(t.drop_last() =~= init.update(k, e));
        lemma_map_update(init, k, e);
        assert(keys_of(s)[k] != keys_of(s)[s.len() - 1]);
        assert(prefs_map(t) =~= prefs_map(s).insert(e.0@, e.1@));
    }
}

/// Removing entry `k` removes its key from the map.
proof fn lemma_map_remove(s: Seq<(String, MonitorPrefs)>, k: int)
    requires
        keys_of(s).no_duplicates(),
        0 <= k < s.len(),
    ensures
        prefs_map(s.remove(k)) == prefs_map(s).remove(s[k].0@),
        keys_of(s.remove(k)) == keys_of(s).remove(k),
    decreases s.len(),
{
    let t = s.remove(k);
    assert(keys_of(t) =~= keys_of(s).remove(k));
    if k == s.len() - 1 {
        assert(t =~= s.drop_last());
        let init = s.drop_last();
        assert forall|j: int| 0 <= j < init.len() implies (#[trigger] init[j]).0@ != s[k].0@ by {
            assert(keys_of(s)[j] != keys_of(s)[k]);
        }
        lemma_map_absent(init, s[k].0@);
        assert(prefs_map(t) =~= prefs_map(s).remove(s[k].0@));
    } else {
        let init = s.drop_last();
        assert(keys_of(init) =~= keys_of(s).drop_last());
        assert(t.drop_last() =~= init.remove(k));
        assert(t.last() == s.last());
        lemma_map_remove(init, k);
        assert(keys_of(s)[k] != keys_of(s)[s.len() - 1]);
        assert(prefs_map(t) =~= prefs_map(s).remove(s[k].0@));
    }
}

impl AppPrefs {
    /// Position of the entry of `key`.
    fn index_of(&self, key: &str) -> (r: Option<usize>)
        ensures
            match r {
                Some(k) => k < self.monitors@.len() && self.monitors@[k as int].0@ == key@,
                None => forall|j: int| 0 <= j < self.monitors@.len() ==> (#[trigger] self.monitors@[j]).0@ != key@,
            },
    {
        let mut k: usize = 0;
        while k < self.monitors.len()
            invariant
                k <= self.monitors@.len(),
                forall|j: int| 0 <= j < k ==> (#[trigger] self.monitors@[j]).0@ != key@,
            decreases self.monitors@.len() - k,
        {
            if str_eq(self.monitors[k].0.as_str(), key) {
                return Some(k);
            }
            k += 1;
        }
        None
    }

    /// Preferences stored for `key`.
    pub fn monitor(&self, key: &str) -> (r: Option<&MonitorPrefs>)
        requires
            self.wf(),
        ensures
            match r {
                Some(p) => self.map().contains_key(key@) && self.map()[key@] == p@,
                None => !self.map().contains_key(key@),
            },
    {
        match self.index_of(key) {
            Some(k) => {
                proof {
                    lemma_map_first(self.monitors@, k as int);
                }
                Some(&self.monitors[k].1)
            },
            None => {
                proof {
                    lemma_map_absent(self.monitors@, key@);
                }
                None
            },
        }
    }

    /// Stores `p` as the entry of `key`.
    fn put(&mut self, key: &str, p: MonitorPrefs)
        requires
            old(self).wf(),
        ensures
            final(self).wf(),
            final(self).confirm_seconds == old(self).confirm_seconds,
            final(self).map() == old(self).map().insert(key@, p@),
    {
        let ghost s0 = self.monitors@;
        match self.index_of(key) {
            Some(k) => {
                let e = (self.monitors[k].0.clone(), p);
                self.monitors.set(k, e);
                proof {
                    lemma_map_update(s0, k as int, e);
                }
            },
            None => {
                let e = (key.to_owned(), p);
                self.monitors.push(e);
                proof {
                    assert(self.monitors@.drop_last() =~= s0);
                    assert(keys_of(self.monitors@) =~= keys_of(s0).push(key@));
                    assert(keys_of(self.monitors@).no_duplicates()) by {
                        let ks = keys_of(self.monitors@);
                        assert forall|a: int, b: int| 0 <= a < b < ks.len() implies ks[a] != ks[b] by {
                            if b == s0.len() {
                                assert(ks[a] == s0[a].0@);
                            }
                        }
                    }
                }
            },
        }
    }

    /// Drops the entry of `key` when it holds nothing but defaults.
    fn prune(&mut self, key: &str)
        requires
            old(self).wf(),
        ensures
            final(self).wf(),
            final(self).confirm_seconds == old(self).confirm_seconds,
            final(self).map() == if old(self).map().contains_key(key@) && old(self).map()[key@] == default_prefs() {
                old(self).map().remove(key@)
            } else {
                old(self).map()
            },
    {
        let ghost s0 = self.monitors@;
        match self.index_of(key) {
            Some(k) => {
                proof {
                    lemma_map_first(s0, k as int);
                }
                let is_default = self.monitors[k].1.alias.is_none() && self.monitors[k].1.is_kvm.is_none();
                if is_default {
                    self.monitors.remove(k);
                    proof {
                        lemma_map_remove(s0, k as int);
                        assert(keys_of(s0).remove(k as int).no_duplicates()) by {
                            let ks = keys_of(s0);
                            let kr = ks.remove(k as int);
                            assert forall|a: int, b: int| 0 <= a < b < kr.len() implies kr[a] != kr[b] by {
                                let a2 = if a < k { a } else { a + 1 };
                                let b2 = if b < k { b } else { b + 1 };
                                assert(kr[a] == ks[a2] && kr[b] == ks[b2]);
                            }
                        }
                    }
                }
            },
            None => {
                proof {
                    lemma_map_absent(s0, key@);
                }
            },
        }
    }

    /// Stores `p` as the entry of `key`; a default entry is dropped.
    fn store(&mut self, key: &str, p: MonitorPrefs)
        requires
            old(self).wf(),
        ensures
            final(self).wf(),
            final(self).confirm_seconds == old(self).confirm_seconds,
            final(self).map() == stored(old(self).map(), key@, p@),
    {
        let ghost m0 = self.map();
        let ghost pv = p@;
        self.put(key, p);
        self.prune(key);
        proof {
            if pv == default_prefs() {
                assert(m0.insert(key@, pv).remove(key@) =~= m0.remove(key@));
            }
        }
    }

    /// Current entry of `key`, or the default.
    fn entry(&self, key: &str) -> (r: MonitorPrefs)
        requires
            self.wf(),
        ensures
            r@ == entry_of(self.map(), key@),
    {
        match self.monitor(key) {
            Some(p) => p.clone(),
            None => MonitorPrefs::default(),
        }
    }

    /// Sets (or, with `None` or a blank alias, clears) the alias of `key`.
    pub fn set_alias(&mut self, key: &str, alias: Option<String>)
        requires
            old(self).wf(),
        ensures
            final(self).wf(),
            final(self).confirm_seconds == old(self).confirm_seconds,
            no_default_entry(old(self).map()) ==> no_default_entry(final(self).map()),
            final(self).map() == stored(
                old(self).map(),
                key@,
                MonitorPrefsView {
                    alias: kept_alias(
                        match &alias {
                            Some(a) => Some(a@),
                            None => None,
                        },
                    ),
                    ..entry_of(old(self).map(), key@)
                },
            ),
    {
        let mut p = self.entry(key);
        p.alias = match alias {
            Some(a) => {
                let t = trim_chars(&chars_of(a.as_str()));
                if t.len() > 0 {
                    Some(a)
                } else {
                    None
                }
            },
            None => None,
        };
        let ghost m0 = self.map();
        let ghost pv = p@;
        self.store(key, p);
        proof {
            if no_default_entry(m0) {
                lemma_store_keeps_no_default(m0, key@, pv);
            }
        }
    }

    /// Sets (or, with `None`, clears) the KVM override of `key`.
    pub fn set_kvm_override(&mut self, key: &str, is_kvm: Option<bool>)
        requires
            old(self).wf(),
        ensures
            final(self).wf(),
            final(self).confirm_seconds == old(self).confirm_seconds,
            no_default_entry(old(self).map()) ==> no_default_entry(final(self).map()),
            final(self).map() == stored(
                old(self).map(),
                key@,
                MonitorPrefsView { is_kvm, ..entry_of(old(self).map(), key@) },
            ),
    {
        let mut p = self.entry(key);
        p.is_kvm = is_kvm;
        let ghost m0 = self.map();
        let ghost pv = p@;
        self.store(key, p);
        proof {
            if no_default_entry(m0) {
                lemma_store_keeps_no_default(m0, key@, pv);
            }
        }
    }

    /// Display name for a monitor: alias, then the compositor's display
    /// name, then the model.
    pub fn display_name(&self, monitor: &PhysicalMonitor) -> (r: String)
        requires
            self.wf(),
        ensures
            r@ == display_name_of(self.map(), monitor@),
    {
        let key = monitor.identity.stable_key();
        match self.monitor(key.as_str()) {
            Some(p) => match &p.alias {
                Some(a) => {
                    return a.clone();
                },
                None => {},
            },
            None => {},
        }
        match &monitor.display_name {
            Some(n) => {
                return n.clone();
            },
            None => {},
        }
        if monitor.identity.has_edid() {
            let mut s = monitor.identity.vendor.clone();
            push_str(&mut s, " ");
            push_str(&mut s, monitor.identity.product.as_str());
            s
        } else {
            monitor.identity.connector.clone()
        }
    }

    /// Whether the monitor is treated as the KVM display (the user
    /// override wins over the heuristic).
    pub fn is_kvm(&self, monitor: &PhysicalMonitor) -> (r: bool)
        requires
            self.wf(),
            kvm_decidable(self.map(), monitor@),
        ensures
            r == is_kvm_of(self.map(), monitor@),
    {
        let key = monitor.identity.stable_key();
        match self.monitor(key.as_str()) {
            Some(p) => match p.is_kvm {
                Some(v) => {
                    return v;
                },
                None => {},
            },
            None => {},
        }
        monitor.is_likely_kvm()
    }
}

/// Preferences never hold an entry equal to the default: clearing every
/// setting of a monitor removes its entry.
/// No stored entry equals the default entry.
pub open spec fn no_default_entry(m: Map<Seq<char>, MonitorPrefsView>) -> bool {
    forall|k: Seq<char>| #[trigger] m.contains_key(k) ==> m[k] != default_prefs()
}

/// Storing an entry keeps the preferences free of default entries.
pub proof fn lemma_store_keeps_no_default(m: Map<Seq<char>, MonitorPrefsView>, key: Seq<char>, p: MonitorPrefsView)
    requires
        no_default_entry(m),
    ensures
        no_default_entry(stored(m, key, p)),
{
    let n = stored(m, key, p);
    assert forall|k: Seq<char>| #[trigger] n.contains_key(k) implies n[k] != default_prefs() by {
        if k != key {
            assert(m.contains_key(k) && n[k] == m[k]);
        }
    }
}

pub proof fn lemma_cleared_entry_removed(m: Map<Seq<char>, MonitorPrefsView>, key: Seq<char>, p: MonitorPrefsView)
    ensures
        p == default_prefs() ==> !stored(m, key, p).contains_key(key),
        p != default_prefs() ==> stored(m, key, p).contains_key(key) && stored(m, key, p)[key] == p,
        forall|k: Seq<char>| k != key ==> #[trigger] stored(m, key, p).contains_key(k) == m.contains_key(k),
{
}

} // verus!
