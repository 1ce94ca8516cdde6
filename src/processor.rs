use vstd::prelude::*;

use crate::config::{expand_home, expanded, opt_view, Config};
use crate::db::Store;
use crate::strmap::StrMap;
use crate::template::{Target, Template};
use crate::text::compare_str;

verus! {

/// The icon set a render context uses: `nerdfont` when selected, else `ascii`.
pub open spec fn icons_for(config: Config) -> StrMap {
    if config.theme.active_icons@ == "nerdfont"@ {
        config.icons.nerdfont
    } else {
        config.icons.ascii
    }
}

/// The icon set selected by the theme.
pub fn active_icons(config: &Config) -> (r: &StrMap)
    ensures
        *r == icons_for(*config),
{
    if compare_str(config.theme.active_icons.as_str(), "nerdfont") == 0 {
        &config.icons.nerdfont
    } else {
        &config.icons.ascii
    }
}

/// Everything a template writes: its targets, then its files.
pub open spec fn all_targets(t: Template) -> Seq<Target> {
    t.targets@ + t.files@
}

/// One file to render: where it is written (home expanded) and its content template.
pub struct RenderJob {
    pub path: String,
    pub content: String,
}

/// The job for each of `ts`, appended to `jobs`; `false` (and `jobs` partly extended)
/// when a path needs a home directory and none is known.
fn push_jobs(jobs: &mut Vec<RenderJob>, ts: &Vec<Target>, home: Option<&str>) -> (r: bool)
    ensures
        r <==> forall|j: int| 0 <= j < ts@.len() ==> expanded((#[trigger] ts@[j]).target@, opt_view(home)) is Some,
        r ==> final(jobs)@.len() == old(jobs)@.len() + ts@.len(),
        r ==> forall|j: int| 0 <= j < old(jobs)@.len() ==> #[trigger] final(jobs)@[j] == old(jobs)@[j],
        r ==> forall|j: int|
            0 <= j < ts@.len() ==> Some((#[trigger] final(jobs)@[old(jobs)@.len() + j]).path@) == expanded(
                ts@[j].target@,
                opt_view(home),
            ) && final(jobs)@[old(jobs)@.len() + j].content@ == ts@[j].content@,
{
    let ghost base = jobs@;
    let mut i: usize = 0;
    while i < ts.len()
        invariant
            i <= ts@.len(),
            jobs@.len() == base.len() + i,
            forall|j: int| 0 <= j < base.len() ==> #[trigger] jobs@[j] == base[j],
            forall|j: int| 0 <= j < i ==> expanded((#[trigger] ts@[j]).target@, opt_view(home)) is Some,
            forall|j: int|
                0 <= j < i ==> Some((#[trigger] jobs@[base.len() + j]).path@) == expanded(ts@[j].target@, opt_view(home))
                    && jobs@[base.len() + j].content@ == ts@[j].content@,
        decreases ts@.len() - i,
    {
        let t = &ts[i];
        match expand_home(t.target.as_str(), home) {
            Some(path) => {
                let ghost j0 = jobs@;
                jobs.push(RenderJob { path, content: t.content.clone() });
                assert(forall|j: int| 0 <= j < j0.len() ==> jobs@[j] == j0[j]);
            },
            None => {
                return false;
            },
        }
        i = i + 1;
    }
    true
}

/// The files applying `template` writes, in order, with `~` expanded against `home`;
/// `None` when a path needs a home directory and none is known.
pub fn render_jobs(template: &Template, home: Option<&str>) -> (r: Option<Vec<RenderJob>>)
    ensures
        r is None <==> exists|i: int|
            0 <= i < all_targets(*template).len() && expanded(
                (#[trigger] all_targets(*template)[i]).target@,
                opt_view(home),
            ) is None,
        r matches Some(v) ==> v@.len() == all_targets(*template).len() && forall|i: int|
            0 <= i < v@.len() ==> Some((#[trigger] v@[i]).path@) == expanded(
                all_targets(*template)[i].target@,
                opt_view(home),
            ) && v@[i].content@ == all_targets(*template)[i].content@,
{
    let ghost all = all_targets(*template);
    let ghost nt = template.targets@.len();
    let mut jobs: Vec<RenderJob> = Vec::new();
    if !push_jobs(&mut jobs, &template.targets, home) {
        proof {
            let j = choose|j: int| 0 <= j < nt && expanded((#[trigger] template.targets@[j]).target@, opt_view(home)) is None;
            assert(all[j] == template.targets@[j]);
        }
        return None;
    }
    let ghost after_targets = jobs@;
    if !push_jobs(&mut jobs, &template.files, home) {
        proof {
            let j = choose|j: int| 0 <= j < template.files@.len() && expanded((#[trigger] template.files@[j]).target@, opt_view(home)) is None;
            assert(all[nt + j] == template.files@[j]);
        }
        return None;
    }
    proof {
        assert forall|i: int| 0 <= i < all.len() implies expanded((#[trigger] all[i]).target@, opt_view(home)) is Some by {
            if i < nt {
                assert(all[i] == template.targets@[i]);
            } else {
                assert(all[i] == template.files@[i - nt]);
            }
        }
        assert forall|i: int| 0 <= i < jobs@.len() implies Some((#[trigger] jobs@[i]).path@) == expanded(
                all[i].target@,
                opt_view(home),
            ) && jobs@[i].content@ == all[i].content@ by {
            assert(after_targets.len() == nt);
            if i < nt {
                assert(all[i] == template.targets@[i]);
                assert(jobs@[i] == after_targets[i]);
                assert(after_targets[0 + i] == after_targets[i]);
                assert(Some(after_targets[0 + i].path@) == expanded(template.targets@[i].target@, opt_view(home)));
            } else {
                let j = i - nt;
                assert(all[i] == template.files@[j]);
                assert(jobs@[after_targets.len() + j] == jobs@[i]);
                assert(Some(jobs@[after_targets.len() + j].path@) == expanded(template.files@[j].target@, opt_view(home)));
            }
        }
    }
    Some(jobs)
}

/// Outcome of applying one template: `true` unless its reload hook ran and failed.
/// `hook_ok` is the hook's exit status when it ran.
pub fn hook_outcome(template: &Template, hook_ok: Option<bool>) -> (r: bool)
    requires
        template.hooks.reload is Some <==> hook_ok is Some,
    ensures
        r == match hook_ok {
            Some(ok) => ok,
            None => true,
        },
{
    match hook_ok {
        Some(ok) => ok,
        None => true,
    }
}

/// Counters of a batch apply.
#[derive(Clone, Copy, PartialEq, Eq, Debug, Structural)]
pub struct ApplySummary {
    pub applied: usize,
    pub skipped: usize,
    pub hook_failures: usize,
}

/// How many of the templates are ignored.
pub open spec fn ignored_count(s: Seq<Template>) -> nat
    decreases s.len(),
{
    if s.len() == 0 {
        0
    } else {
        ignored_count(s.drop_last()) + if s.last().manifest.ignored { 1nat } else { 0nat }
    }
}

/// How many hook outcomes are failures.
pub open spec fn failure_count(s: Seq<bool>) -> nat
    decreases s.len(),
{
    if s.len() == 0 {
        0
    } else {
        failure_count(s.drop_last()) + if s.last() { 0nat } else { 1nat }
    }
}

/// The templates a batch applies: those not ignored, in listing order.
pub open spec fn to_apply(s: Seq<Template>) -> Seq<Template>
    decreases s.len(),
{
    if s.len() == 0 {
        Seq::empty()
    } else if s.last().manifest.ignored {
        to_apply(s.drop_last())
    } else {
        to_apply(s.drop_last()).push(s.last())
    }
}

/// The templates a batch over `db` applies, in order; ignored ones are skipped.
pub fn apply_queue(db: &Store) -> (r: Vec<&Template>)
    requires
        db.wf(),
    ensures
        r@.len() == to_apply(db.entries()).len(),
        forall|i: int| 0 <= i < r@.len() ==> *r@[i] == to_apply(db.entries())[i],
{
    let all = db.list();
    let ghost e = db.entries();
    assert(forall|i: int| 0 <= i < all@.len() ==> *all@[i] == e[i]);
    let mut out: Vec<&Template> = Vec::new();
    let mut k: usize = 0;
    while k < all.len()
        invariant
            all@.len() == e.len(),
            forall|i: int| 0 <= i < all@.len() ==> *all@[i] == e[i],
            k <= e.len(),
            out@.len() == to_apply(e.subrange(0, k as int)).len(),
            forall|i: int| 0 <= i < out@.len() ==> *out@[i] == to_apply(e.subrange(0, k as int))[i],
        decreases e.len() - k,
    {
        let t = all[k];
        assert(e.subrange(0, k + 1).drop_last() =~= e.subrange(0, k as int));
        assert(e.subrange(0, k + 1).last() == e[k as int]);
        if !t.manifest.ignored {
            out.push(t);
        }
        k = k + 1;
    }
    assert(e.subrange(0, e.len() as int) =~= e);
    out
}

proof fn lemma_to_apply_len(s: Seq<Template>)
    ensures
        to_apply(s).len() + ignored_count(s) == s.len(),
    decreases s.len(),
{
    if s.len() > 0 {
        lemma_to_apply_len(s.drop_last());
    }
}

/// Tallies a batch over `db` given the hook outcome of each applied template, in
/// queue order: every template not ignored counts as applied, ignored ones as skipped,
/// and each failed hook as a hook failure.
pub fn execute(db: &Store, hook_results: &Vec<bool>) -> (r: ApplySummary)
    requires
        db.wf(),
        hook_results@.len() == to_apply(db.entries()).len(),
    ensures
        r.skipped == ignored_count(db.entries()),
        r.applied == db.entries().len() - ignored_count(db.entries()),
        r.hook_failures == failure_count(hook_results@),
{
    let all = db.list();
    let ghost e = db.entries();
    proof {
        lemma_to_apply_len(e);
    }
    let mut skipped: usize = 0;
    let mut k: usize = 0;
    while k < all.len()
        invariant
            all@.len() == e.len(),
            forall|i: int| 0 <= i < all@.len() ==> *all@[i] == e[i],
            k <= e.len(),
            skipped == ignored_count(e.subrange(0, k as int)),
            skipped <= k,
        decreases e.len() - k,
    {
        assert(e.subrange(0, k + 1).drop_last() =~= e.subrange(0, k as int));
        assert(e.subrange(0, k + 1).last() == e[k as int]);
        if all[k].manifest.ignored {
            skipped = skipped + 1;
        }
        k = k + 1;
    }
    assert(e.subrange(0, e.len() as int) =~= e);
    let mut failures: usize = 0;
    let mut j: usize = 0;
    let ghost h = hook_results@;
    while j < hook_results.len()
        invariant
            h == hook_results@,
            j <= h.len(),
            failures == failure_count(h.subrange(0, j as int)),
            failures <= j,
        decreases h.len() - j,
    {
        assert(h.subrange(0, j + 1).drop_last() =~= h.subrange(0, j as int));
        if !hook_results[j] {
            failures = failures + 1;
        }
        j = j + 1;
    }
    assert(h.subrange(0, h.len() as int) =~= h);
    ApplySummary { applied: all.len() - skipped, skipped, hook_failures: failures }
}

} // verus!
