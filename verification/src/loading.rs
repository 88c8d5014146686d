//! Loading saved profiles into the editor, and renaming, duplicating and
//! deleting them. An exact match is loaded straight away; a partial or
//! ambiguous one is never loaded silently but offered for confirmation,
//! and only when something of it resolved.
use vstd::prelude::*;
use crate::identity::str_eq;
use crate::layout::{monitors_view, DisplayLayout, LayoutView};
use crate::profile::{
    profile_problem_text, profile_problems_view, resolve_spec, DisplayProfile, ProfileProblemView,
    ProfileView,
};
use crate::seqs::{first_where, lemma_first_where_at, lemma_first_where_none};
use crate::state::DisplayState;
use crate::text::{chars_of, push_str, trim_chars, trim_seq};
use crate::validation::{normalize, normalize_fits, normalized};

verus! {

/// Views of a list of profiles.
pub open spec fn profiles_view(ps: Seq<DisplayProfile>) -> Seq<ProfileView> {
    ps.map_values(|p: DisplayProfile| p@)
}

/// The profile has the given ID.
pub open spec fn id_is(id: Seq<char>) -> spec_fn(ProfileView) -> bool {
    |p: ProfileView| p.id == id
}

/// What loading a profile comes to.
#[derive(Debug)]
pub enum LoadPlan {
    /// No profile has that ID, or no monitor state is known yet.
    Nothing,
    /// The profile matched the connected monitors exactly.
    Load { name: String, layout: DisplayLayout },
    /// The match is partial or ambiguous: the user decides. A partial
    /// load is offered only when some display resolved.
    Confirm { name: String, problems: Vec<String>, can_partial: bool, layout: DisplayLayout },
}

/// Messages of a list of profile problems.
pub open spec fn texts_view(s: Seq<String>) -> Seq<Seq<char>> {
    s.map_values(|t: String| t@)
}

/// Messages of profile problems, in order.
pub open spec fn problem_texts(s: Seq<ProfileProblemView>) -> Seq<Seq<char>> {
    s.map_values(|p: ProfileProblemView| profile_problem_text(p))
}

/// Index of the first profile with ID `id`.
fn find_profile(profiles: &[DisplayProfile], id: &str) -> (r: Option<usize>)
    ensures
        match first_where(profiles_view(profiles@), id_is(id@)) {
            None => r is None,
            Some(i) => r is Some && r->0 as int == i,
        },
{
    let ghost pv = profiles_view(profiles@);
    let mut i: usize = 0;
    while i < profiles.len()
        invariant
            pv == profiles_view(profiles@),
            i <= profiles@.len(),
            forall|j: int| 0 <= j < i ==> !id_is(id@)(#[trigger] pv[j]),
        decreases profiles@.len() - i,
    {
        assert(pv[i as int] == profiles@[i as int]@);
        if str_eq(profiles[i].id.as_str(), id) {
            proof {
                lemma_first_where_at(pv, id_is(id@), i as int);
            }
            return Some(i);
        }
        i += 1;
    }
    proof {
        lemma_first_where_none(pv, id_is(id@));
    }
    None
}

/// The plan for loading profile `id` against `current`.
pub open spec fn plan_holds(ps: Seq<ProfileView>, id: Seq<char>, current: Option<&DisplayState>, r: LoadPlan) -> bool {
    match (first_where(ps, id_is(id)), current) {
        (Some(i), Some(state)) => {
            let res = resolve_spec(ps[i], monitors_view(state.monitors@));
            if res.1.len() == 0 {
                r matches LoadPlan::Load { name, layout } && name@ == ps[i].name && layout@ == res.0
            } else {
                r matches LoadPlan::Confirm { name, problems, can_partial, layout } && name@ == ps[i].name
                    && texts_view(problems@) == problem_texts(res.1)
                    && can_partial == (res.0.displays.len() > 0) && layout@ == res.0
            }
        },
        _ => r is Nothing,
    }
}

/// Finds profile `profile_id` and resolves it against the current
/// monitors, deciding whether it can be loaded directly.
pub fn plan_profile_load(profiles: &[DisplayProfile], profile_id: &str, current: Option<&DisplayState>) -> (r: LoadPlan)
    ensures
        plan_holds(profiles_view(profiles@), profile_id@, current, r),
{
    let ghost pv = profiles_view(profiles@);
    let k = match find_profile(profiles, profile_id) {
        None => {
            return LoadPlan::Nothing;
        },
        Some(k) => k,
    };
    assert(first_where(pv, id_is(profile_id@)) == Some(k as int));
    let state = match current {
        None => {
            return LoadPlan::Nothing;
        },
        Some(s) => s,
    };
    let profile = &profiles[k];
    assert(pv[k as int] == profile@);
    let resolution = profile.resolve(state.monitors.as_slice());
    let name = profile.name.clone();
    if resolution.is_exact() {
        return LoadPlan::Load { name, layout: resolution.layout };
    }
    let ghost pr = profile_problems_view(resolution.problems@);
    let mut problems: Vec<String> = Vec::new();
    let mut t: usize = 0;
    while t < resolution.problems.len()
        invariant
            t <= resolution.problems@.len(),
            pr == profile_problems_view(resolution.problems@),
            texts_view(problems@) == problem_texts(pr.take(t as int)),
        decreases resolution.problems@.len() - t,
    {
        let text = resolution.problems[t].message();
        assert(pr[t as int] == resolution.problems@[t as int]@);
        let ghost before = problems@;
        problems.push(text);
        assert(texts_view(problems@) =~= texts_view(before).push(profile_problem_text(pr[t as int])));
        assert(pr.take(t as int + 1) =~= pr.take(t as int).push(pr[t as int]));
        assert(problem_texts(pr.take(t as int + 1)) =~= problem_texts(pr.take(t as int)).push(
            profile_problem_text(pr[t as int]),
        ));
        t += 1;
    }
    assert(pr.take(pr.len() as int) =~= pr);
    let can_partial = resolution.layout.logical_displays.len() > 0;
    LoadPlan::Confirm { name, problems, can_partial, layout: resolution.layout }
}

/// The layout the editor takes on when a profile is loaded: re-anchored
/// against the current monitors when they are known.
pub fn loaded_layout(current: Option<&DisplayState>, layout: DisplayLayout) -> (r: DisplayLayout)
    requires
        current matches Some(s) ==> normalize_fits(monitors_view(s.monitors@), layout@),
    ensures
        r@ == match current {
            Some(s) => normalized(monitors_view(s.monitors@), layout@),
            None => layout@,
        },
{
    let mut layout = layout;
    match current {
        Some(state) => {
            normalize(&mut layout, state.monitors.as_slice());
        },
        None => {},
    }
    layout
}

/// A name made of whitespace only (or nothing) is refused.
pub open spec fn is_blank(name: Seq<char>) -> bool {
    trim_seq(name).len() == 0
}

/// The profile after a rename at time `now`.
pub open spec fn renamed(p: ProfileView, name: Seq<char>, now: u64) -> ProfileView {
    ProfileView { name, modified_unix: now, ..p }
}

/// Renames profile `id`, stamping its modification time. A blank name, or
/// an ID that no profile has, changes nothing and returns `false`.
pub fn rename_profile(profiles: &mut Vec<DisplayProfile>, id: &str, name: String, now_unix: u64) -> (r: bool)
    ensures
        match first_where(profiles_view(old(profiles)@), id_is(id@)) {
            Some(i) => if is_blank(name@) {
                !r && final(profiles)@ == old(profiles)@
            } else {
                r && profiles_view(final(profiles)@) == profiles_view(old(profiles)@).update(
                    i,
                    renamed(profiles_view(old(profiles)@)[i], name@, now_unix),
                )
            },
            None => !r && final(profiles)@ == old(profiles)@,
        },
{
    let chars = chars_of(name.as_str());
    let trimmed = trim_chars(&chars);
    let k = match find_profile(profiles.as_slice(), id) {
        None => {
            return false;
        },
        Some(k) => k,
    };
    if trimmed.len() == 0 {
        return false;
    }
    let ghost pv = profiles_view(profiles@);
    let mut p = profiles[k].clone();
    p.name = name;
    p.modified_unix = now_unix;
    profiles.set(k, p);
    assert(profiles_view(profiles@) =~= pv.update(k as int, renamed(pv[k as int], name@, now_unix)));
    true
}

/// The copy made by duplicating `p` at time `now`.
pub open spec fn duplicated(p: ProfileView, new_id: Seq<char>, now: u64) -> ProfileView {
    ProfileView { id: new_id, name: p.name + " (copy)"@, created_unix: now, modified_unix: now, ..p }
}

/// Appends a copy of profile `id` under `new_id`, named after the original
/// with " (copy)" and stamped with `now_unix`; `false`, with nothing
/// changed, when no profile has that ID.
pub fn duplicate_profile(profiles: &mut Vec<DisplayProfile>, id: &str, new_id: String, now_unix: u64) -> (r: bool)
    ensures
        match first_where(profiles_view(old(profiles)@), id_is(id@)) {
            Some(i) => r && profiles_view(final(profiles)@) == profiles_view(old(profiles)@).push(
                duplicated(profiles_view(old(profiles)@)[i], new_id@, now_unix),
            ),
            None => !r && final(profiles)@ == old(profiles)@,
        },
{
    let k = match find_profile(profiles.as_slice(), id) {
        None => {
            return false;
        },
        Some(k) => k,
    };
    let ghost pv = profiles_view(profiles@);
    let mut copy = profiles[k].clone();
    let mut name = copy.name.clone();
    proof {
        reveal_strlit(" (copy)");
    }
    push_str(&mut name, " (copy)");
    copy.id = new_id;
    copy.name = name;
    copy.created_unix = now_unix;
    copy.modified_unix = now_unix;
    profiles.push(copy);
    assert(profiles_view(profiles@) =~= pv.push(duplicated(pv[k as int], new_id@, now_unix)));
    true
}

/// The profile keeps an ID other than `id`.
pub open spec fn kept(id: Seq<char>) -> spec_fn(DisplayProfile) -> bool {
    |p: DisplayProfile| p.id@ != id
}

/// Removes every profile with ID `id`, keeping the order of the rest.
pub fn delete_profile(profiles: &mut Vec<DisplayProfile>, id: &str)
    ensures
        final(profiles)@ == old(profiles)@.filter(kept(id@)),
{
    let ghost orig = profiles@;
    let mut i: usize = 0;
    let ghost mut k: int = 0;
    while i < profiles.len()
        invariant
            0 <= i <= profiles@.len(),
            0 <= k <= orig.len(),
            profiles@.take(i as int) == orig.take(k).filter(kept(id@)),
            profiles@.skip(i as int) == orig.skip(k),
            profiles@.len() - i == orig.len() - k,
        decreases profiles@.len() - i,
    {
        let ghost before = profiles@;
        assert(before.skip(i as int)[0] == orig.skip(k)[0]);
        assert(orig[k] == before[i as int]);
        proof {
            reveal(Seq::filter);
            assert(orig.take(k + 1).drop_last() =~= orig.take(k));
            assert(orig.take(k + 1).last() == orig[k]);
        }
        if str_eq(profiles[i].id.as_str(), id) {
            profiles.remove(i);
            proof {
                assert(profiles@.take(i as int) =~= before.take(i as int));
                assert forall|j: int| 0 <= j < profiles@.len() - i implies profiles@.skip(i as int)[j]
                    == orig.skip(k + 1)[j] by {
                    assert(before.skip(i as int)[j + 1] == orig.skip(k)[j + 1]);
                }
                assert(profiles@.skip(i as int) =~= orig.skip(k + 1));
                k = k + 1;
            }
        } else {
            i += 1;
            proof {
                assert(profiles@.take(i as int) =~= before.take(i as int - 1).push(before[i as int - 1]));
                assert forall|j: int| 0 <= j < profiles@.len() - i implies profiles@.skip(i as int)[j]
                    == orig.skip(k + 1)[j] by {
                    assert(before.skip(i as int - 1)[j + 1] == orig.skip(k)[j + 1]);
                }
                assert(profiles@.skip(i as int) =~= orig.skip(k + 1));
                k = k + 1;
            }
        }
    }
    proof {
        assert(orig.skip(k).len() == 0);
        assert(k == orig.len());
        assert(orig.take(k) =~= orig);
        assert(profiles@.take(i as int) =~= profiles@);
    }
}

} // verus!
