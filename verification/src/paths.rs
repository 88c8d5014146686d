//! XDG-compliant application paths, from the environment values that
//! decide them. Paths are byte strings, as on Unix, so any value the
//! environment holds is kept as it is.
use vstd::prelude::*;

verus! {

/// Directory name under the XDG base directories.
pub const APP_DIR_NAME: &'static str = "monitor-layout";

/// The byte `/`.
pub const SLASH: u8 = 47;

/// Unix path joining (`Path::join`): an absolute `name` replaces `base`;
/// otherwise `name` follows `base`, with a `/` between them unless `base`
/// is empty or already ends in one.
pub open spec fn joined(base: Seq<u8>, name: Seq<u8>) -> Seq<u8> {
    if name.len() > 0 && name[0] == SLASH {
        name
    } else if base.len() > 0 && base.last() != SLASH {
        base + seq![SLASH] + name
    } else {
        base + name
    }
}

/// The bytes of ASCII text.
pub open spec fn ascii_bytes(s: Seq<char>) -> Seq<u8> {
    s.map_values(|c: char| c as u8)
}

/// The text is ASCII.
pub open spec fn is_ascii_text(s: Seq<char>) -> bool {
    forall|i: int| 0 <= i < s.len() ==> (#[trigger] s[i] as u32) < 128
}

/// `base` joined with the ASCII path component `name`.
fn join(base: &Vec<u8>, name: &str) -> (r: Vec<u8>)
    requires
        is_ascii_text(name@),
    ensures
        r@ == joined(base@, ascii_bytes(name@)),
{
    let cs = crate::text::chars_of(name);
    let mut nb: Vec<u8> = Vec::new();
    let mut i: usize = 0;
    while i < cs.len()
        invariant
            cs@ == name@,
            is_ascii_text(name@),
            i <= cs@.len(),
            nb@ == ascii_bytes(cs@.take(i as int)),
        decreases cs@.len() - i,
    {
        let c = cs[i];
        assert((c as u32) < 128);
        nb.push(c as u8);
        assert(ascii_bytes(cs@.take(i as int + 1)) =~= ascii_bytes(cs@.take(i as int)).push(c as u8));
        i += 1;
    }
    assert(cs@.take(cs@.len() as int) =~= cs@);
    if nb.len() > 0 && nb[0] == SLASH {
        return nb;
    }
    let mut out: Vec<u8> = Vec::new();
    let mut k: usize = 0;
    while k < base.len()
        invariant
            k <= base@.len(),
            out@ == base@.take(k as int),
        decreases base@.len() - k,
    {
        out.push(base[k]);
        k += 1;
        assert(out@ =~= base@.take(k as int));
    }
    assert(base@.take(base@.len() as int) =~= base@);
    if base.len() > 0 && base[base.len() - 1] != SLASH {
        out.push(SLASH);
    }
    let ghost head = out@;
    let mut t: usize = 0;
    while t < nb.len()
        invariant
            t <= nb@.len(),
            out@ == head + nb@.take(t as int),
        decreases nb@.len() - t,
    {
        out.push(nb[t]);
        t += 1;
        assert(out@ =~= head + nb@.take(t as int));
    }
    assert(nb@.take(nb@.len() as int) =~= nb@);
    out
}

pub open spec fn opt_view(o: Option<Vec<u8>>) -> Option<Seq<u8>> {
    match o {
        Some(s) => Some(s@),
        None => None,
    }
}

/// The configuration directory: the override when given, else
/// `$XDG_CONFIG_HOME/monitor-layout` when that is set and not empty, else
/// `$HOME/.config/monitor-layout`, else none.
pub open spec fn config_dir_spec(
    override_dir: Option<Seq<u8>>,
    xdg_config_home: Option<Seq<u8>>,
    home: Option<Seq<u8>>,
) -> Option<Seq<u8>> {
    match override_dir {
        Some(d) => Some(d),
        None => match xdg_config_home {
            Some(x) if x.len() > 0 => Some(joined(x, ascii_bytes(APP_DIR_NAME@))),
            _ => match home {
                Some(h) => Some(joined(joined(h, ascii_bytes(".config"@)), ascii_bytes(APP_DIR_NAME@))),
                None => None,
            },
        },
    }
}

/// The state directory (logs, the pending-revert marker): the override
/// when given, else `$XDG_STATE_HOME/monitor-layout` when that is set and
/// not empty, else `$HOME/.local/state/monitor-layout`, else none.
pub open spec fn state_dir_spec(
    override_dir: Option<Seq<u8>>,
    xdg_state_home: Option<Seq<u8>>,
    home: Option<Seq<u8>>,
) -> Option<Seq<u8>> {
    match override_dir {
        Some(d) => Some(d),
        None => match xdg_state_home {
            Some(x) if x.len() > 0 => Some(joined(x, ascii_bytes(APP_DIR_NAME@))),
            _ => match home {
                Some(h) => Some(
                    joined(
                        joined(joined(h, ascii_bytes(".local"@)), ascii_bytes("state"@)),
                        ascii_bytes(APP_DIR_NAME@),
                    ),
                ),
                None => None,
            },
        },
    }
}

proof fn lemma_names_ascii()
    ensures
        is_ascii_text(APP_DIR_NAME@),
        is_ascii_text(".config"@),
        is_ascii_text(".local"@),
        is_ascii_text("state"@),
        is_ascii_text("profiles.json"@),
        is_ascii_text("prefs.json"@),
{
    reveal_strlit("monitor-layout");
    reveal_strlit(".config");
    reveal_strlit(".local");
    reveal_strlit("state");
    reveal_strlit("profiles.json");
    reveal_strlit("prefs.json");
}

/// The configuration directory from `$MONITOR_LAYOUT_CONFIG_DIR`,
/// `$XDG_CONFIG_HOME` and `$HOME`.
pub fn config_dir_from(override_dir: Option<Vec<u8>>, xdg_config_home: Option<Vec<u8>>, home: Option<Vec<u8>>) -> (r: Option<Vec<u8>>)
    ensures
        opt_view(r) == config_dir_spec(opt_view(override_dir), opt_view(xdg_config_home), opt_view(home)),
{
    proof {
        lemma_names_ascii();
    }
    if let Some(d) = override_dir {
        return Some(d);
    }
    if let Some(x) = xdg_config_home {
        if x.len() > 0 {
            return Some(join(&x, APP_DIR_NAME));
        }
    }
    match home {
        Some(h) => {
            let config = join(&h, ".config");
            Some(join(&config, APP_DIR_NAME))
        },
        None => None,
    }
}

/// The state directory from `$MONITOR_LAYOUT_STATE_DIR`,
/// `$XDG_STATE_HOME` and `$HOME`.
pub fn state_dir_from(override_dir: Option<Vec<u8>>, xdg_state_home: Option<Vec<u8>>, home: Option<Vec<u8>>) -> (r: Option<Vec<u8>>)
    ensures
        opt_view(r) == state_dir_spec(opt_view(override_dir), opt_view(xdg_state_home), opt_view(home)),
{
    proof {
        lemma_names_ascii();
    }
    if let Some(d) = override_dir {
        return Some(d);
    }
    if let Some(x) = xdg_state_home {
        if x.len() > 0 {
            return Some(join(&x, APP_DIR_NAME));
        }
    }
    match home {
        Some(h) => {
            let local = join(&h, ".local");
            let state = join(&local, "state");
            Some(join(&state, APP_DIR_NAME))
        },
        None => None,
    }
}

/// The saved profiles, in the configuration directory.
pub fn profiles_file(config_dir: Option<&Vec<u8>>) -> (r: Option<Vec<u8>>)
    ensures
        opt_view(r) == match config_dir {
            Some(d) => Some(joined(d@, ascii_bytes("profiles.json"@))),
            None => None,
        },
{
    proof {
        lemma_names_ascii();
    }
    match config_dir {
        Some(d) => Some(join(d, "profiles.json")),
        None => None,
    }
}

/// The preferences, in the configuration directory.
pub fn prefs_file(config_dir: Option<&Vec<u8>>) -> (r: Option<Vec<u8>>)
    ensures
        opt_view(r) == match config_dir {
            Some(d) => Some(joined(d@, ascii_bytes("prefs.json"@))),
            None => None,
        },
{
    proof {
        lemma_names_ascii();
    }
    match config_dir {
        Some(d) => Some(join(d, "prefs.json")),
        None => None,
    }
}

} // verus!
