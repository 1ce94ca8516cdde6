use vstd::prelude::*;

use crate::config::RetentionConfig;
use crate::text::{ends_with, str_ends_with, strip_trailing, to_upper, trim, trim_of, trim_trailing, upper_of};

verus! {

/// A log file found under the log directory.
pub struct LogFile {
    pub path: String,
    pub size: u64,
    pub age_days: u64,
}

/// The indices of a vector, as integers.
pub open spec fn ints(v: Seq<usize>) -> Seq<int> {
    v.map_values(|x: usize| x as int)
}

/// How many leading entries of `ord` are at least `age` days old: where a file of
/// that age goes so that older files come first and ties keep their order.
pub open spec fn insert_pos(files: Seq<LogFile>, ord: Seq<int>, age: u64) -> int
    decreases ord.len(),
{
    if ord.len() == 0 {
        0
    } else if files[ord[0]].age_days >= age {
        1 + insert_pos(files, ord.drop_first(), age)
    } else {
        0
    }
}

/// The indices of the first `n` files, oldest first; files of equal age keep their order.
pub open spec fn oldest_first(files: Seq<LogFile>, n: nat) -> Seq<int>
    decreases n,
{
    if n == 0 {
        Seq::empty()
    } else {
        let o = oldest_first(files, (n - 1) as nat);
        o.insert(insert_pos(files, o, files[n - 1].age_days), n - 1)
    }
}

proof fn lemma_insert_pos_bounds(files: Seq<LogFile>, ord: Seq<int>, age: u64)
    ensures
        0 <= insert_pos(files, ord, age) <= ord.len(),
    decreases ord.len(),
{
    if ord.len() > 0 {
        lemma_insert_pos_bounds(files, ord.drop_first(), age);
    }
}

proof fn lemma_oldest_first_indices(files: Seq<LogFile>, n: nat)
    ensures
        oldest_first(files, n).len() == n,
        forall|i: int| 0 <= i < n ==> 0 <= #[trigger] oldest_first(files, n)[i] < n,
    decreases n,
{
    if n > 0 {
        let o = oldest_first(files, (n - 1) as nat);
        lemma_oldest_first_indices(files, (n - 1) as nat);
        lemma_insert_pos_bounds(files, o, files[n - 1].age_days);
        let p = insert_pos(files, o, files[n - 1].age_days);
        let r = o.insert(p, n - 1);
        assert forall|i: int| 0 <= i < n implies 0 <= #[trigger] r[i] < n by {
            if i < p {
                assert(r[i] == o[i]);
            } else if i > p {
                assert(r[i] == o[i - 1]);
            }
        }
    }
}

/// The files' indices, oldest first (a stable sort by age, descending).
pub fn sort_oldest_first(files: &Vec<LogFile>) -> (r: Vec<usize>)
    ensures
        ints(r@) == oldest_first(files@, files@.len()),
        forall|i: int| 0 <= i < r@.len() ==> #[trigger] r@[i] < files@.len(),
{
    let n = files.len();
    let mut ord: Vec<usize> = Vec::new();
    let mut k: usize = 0;
    while k < n
        invariant
            n == files@.len(),
            k <= n,
            ints(ord@) == oldest_first(files@, k as nat),
            ord@.len() == k,
            forall|i: int| 0 <= i < ord@.len() ==> #[trigger] ord@[i] < k,
        decreases n - k,
    {
        let age = files[k].age_days;
        let mut j: usize = 0;
        let ghost o = ints(ord@);
        assert(o.subrange(0, o.len() as int) =~= o);
        while j < ord.len() && files[ord[j]].age_days >= age
            invariant
                n == files@.len(),
                k < n,
                j <= ord@.len(),
                o == ints(ord@),
                forall|i: int| 0 <= i < ord@.len() ==> #[trigger] ord@[i] < k,
                insert_pos(files@, o, age) == j + insert_pos(files@, o.subrange(j as int, o.len() as int), age),
            decreases ord@.len() - j,
        {
            assert(o.subrange(j as int, o.len() as int).drop_first() =~= o.subrange(j + 1, o.len() as int));
            j = j + 1;
        }
        proof {
            if j < ord@.len() {
                assert(o.subrange(j as int, o.len() as int)[0] == o[j as int]);
            } else {
                assert(o.subrange(j as int, o.len() as int).len() == 0);
            }
        }
        let ghost before = ord@;
        ord.insert(j, k);
        proof {
            assert(ints(ord@) =~= o.insert(j as int, k as int));
            assert forall|i: int| 0 <= i < ord@.len() implies #[trigger] ord@[i] < k + 1 by {
                if i < j {
                    assert(ord@[i] == before[i]);
                } else if i > j {
                    assert(ord@[i] == before[i - 1]);
                }
            }
        }
        k = k + 1;
    }
    ord
}

/// Whether the age pass evicts file `f`.
pub open spec fn too_old(f: LogFile, max_age: u64, delete_all: bool) -> bool {
    delete_all || f.age_days > max_age
}

/// The entries of `ord` that the age pass evicts, in order.
pub open spec fn age_evicted(files: Seq<LogFile>, ord: Seq<int>, max_age: u64, delete_all: bool) -> Seq<int>
    decreases ord.len(),
{
    if ord.len() == 0 {
        Seq::empty()
    } else {
        let rest = age_evicted(files, ord.drop_last(), max_age, delete_all);
        if too_old(files[ord.last()], max_age, delete_all) {
            rest.push(ord.last())
        } else {
            rest
        }
    }
}

/// The entries of `ord` that survive the age pass, in order.
pub open spec fn age_survivors(files: Seq<LogFile>, ord: Seq<int>, max_age: u64, delete_all: bool) -> Seq<int>
    decreases ord.len(),
{
    if ord.len() == 0 {
        Seq::empty()
    } else {
        let rest = age_survivors(files, ord.drop_last(), max_age, delete_all);
        if too_old(files[ord.last()], max_age, delete_all) {
            rest
        } else {
            rest.push(ord.last())
        }
    }
}

/// Total size in bytes of the files at the given indices.
pub open spec fn total_size(files: Seq<LogFile>, idx: Seq<int>) -> int
    decreases idx.len(),
{
    if idx.len() == 0 {
        0
    } else {
        files[idx[0]].size + total_size(files, idx.drop_first())
    }
}

/// The size pass: while the files of `rest` together exceed `limit`, evict the first
/// (oldest) of them.
pub open spec fn size_evicted(files: Seq<LogFile>, rest: Seq<int>, limit: u64) -> Seq<int>
    decreases rest.len(),
{
    if rest.len() == 0 || total_size(files, rest) <= limit {
        Seq::empty()
    } else {
        seq![rest[0]] + size_evicted(files, rest.drop_first(), limit)
    }
}

/// The files a sweep evicts, in eviction order: first the age pass over all files
/// oldest first, then, under a size limit, the size pass over the survivors.
pub open spec fn eviction_plan(files: Seq<LogFile>, max_age: u64, limit: Option<u64>, delete_all: bool) -> Seq<int> {
    let ord = oldest_first(files, files.len());
    age_evicted(files, ord, max_age, delete_all) + match limit {
        Some(l) => size_evicted(files, age_survivors(files, ord, max_age, delete_all), l),
        None => Seq::empty(),
    }
}

pub proof fn lemma_total_size_bound(files: Seq<LogFile>, idx: Seq<int>)
    ensures
        0 <= total_size(files, idx) <= idx.len() * 0xFFFF_FFFF_FFFF_FFFF,
    decreases idx.len(),
{
    if idx.len() > 0 {
        lemma_total_size_bound(files, idx.drop_first());
        assert((idx.len() - 1) * 0xFFFF_FFFF_FFFF_FFFF + 0xFFFF_FFFF_FFFF_FFFF == idx.len() * 0xFFFF_FFFF_FFFF_FFFF) by (nonlinear_arith);
    }
}

proof fn lemma_total_size_push(files: Seq<LogFile>, idx: Seq<int>, x: int)
    ensures
        total_size(files, idx.push(x)) == total_size(files, idx) + files[x].size,
    decreases idx.len(),
{
    if idx.len() > 0 {
        assert(idx.push(x).drop_first() =~= idx.drop_first().push(x));
        assert(idx.push(x)[0] == idx[0]);
        lemma_total_size_push(files, idx.drop_first(), x);
    } else {
        assert(idx.push(x).drop_first() =~= Seq::<int>::empty());
        assert(idx.push(x)[0] == x);
        assert(total_size(files, Seq::<int>::empty()) == 0);
    }
}

proof fn lemma_usize_len_bound(n: int)
    requires
        0 <= n <= usize::MAX,
    ensures
        n * 0xFFFF_FFFF_FFFF_FFFF < 0x1_0000_0000_0000_0000_0000_0000_0000_0000,
{
    assert(usize::MAX <= 0xFFFF_FFFF_FFFF_FFFF);
    assert(n * 0xFFFF_FFFF_FFFF_FFFF <= 0xFFFF_FFFF_FFFF_FFFF * 0xFFFF_FFFF_FFFF_FFFF) by (nonlinear_arith)
        requires 0 <= n <= 0xFFFF_FFFF_FFFF_FFFF;
}

/// Total size of the files at `idx`.
pub fn sum_sizes(files: &Vec<LogFile>, idx: &Vec<usize>) -> (r: u128)
    requires
        forall|i: int| 0 <= i < idx@.len() ==> #[trigger] idx@[i] < files@.len(),
    ensures
        r == total_size(files@, ints(idx@)),
{
    let n = idx.len();
    let mut k: usize = n;
    let mut acc: u128 = 0;
    let ghost s = ints(idx@);
    assert(s.subrange(n as int, n as int).len() == 0);
    while k > 0
        invariant
            n == idx@.len(),
            s == ints(idx@),
            k <= n,
            acc == total_size(files@, s.subrange(k as int, n as int)),
            forall|i: int| 0 <= i < idx@.len() ==> #[trigger] idx@[i] < files@.len(),
        decreases k,
    {
        assert(s.subrange(k - 1, n as int).drop_first() =~= s.subrange(k as int, n as int));
        proof {
            lemma_total_size_bound(files@, s.subrange(k - 1, n as int));
            lemma_usize_len_bound(n as int);
            assert((n - k + 1) * 0xFFFF_FFFF_FFFF_FFFF <= n * 0xFFFF_FFFF_FFFF_FFFF) by (nonlinear_arith)
                requires k >= 1, k <= n;
        }
        acc = acc + files[idx[k - 1]].size as u128;
        k = k - 1;
    }
    assert(s.subrange(0, n as int) =~= s);
    acc
}

/// Splits `ord` by the age pass into (evicted, survivors), each in order.
fn split_by_age(files: &Vec<LogFile>, ord: &Vec<usize>, max_age: u64, delete_all: bool) -> (r: (Vec<usize>, Vec<usize>))
    requires
        forall|i: int| 0 <= i < ord@.len() ==> #[trigger] ord@[i] < files@.len(),
    ensures
        ints(r.0@) == age_evicted(files@, ints(ord@), max_age as u64, delete_all),
        ints(r.1@) == age_survivors(files@, ints(ord@), max_age as u64, delete_all),
        forall|i: int| 0 <= i < r.0@.len() ==> #[trigger] r.0@[i] < files@.len(),
        forall|i: int| 0 <= i < r.1@.len() ==> #[trigger] r.1@[i] < files@.len(),
        r.0@.len() + r.1@.len() == ord@.len(),
{
    let mut evicted: Vec<usize> = Vec::new();
    let mut kept: Vec<usize> = Vec::new();
    let n = ord.len();
    let mut k: usize = 0;
    let ghost s = ints(ord@);
    while k < n
        invariant
            n == ord@.len(),
            s == ints(ord@),
            k <= n,
            ints(evicted@) == age_evicted(files@, s.subrange(0, k as int), max_age, delete_all),
            ints(kept@) == age_survivors(files@, s.subrange(0, k as int), max_age, delete_all),
            evicted@.len() + kept@.len() == k,
            forall|i: int| 0 <= i < ord@.len() ==> #[trigger] ord@[i] < files@.len(),
            forall|i: int| 0 <= i < evicted@.len() ==> #[trigger] evicted@[i] < files@.len(),
            forall|i: int| 0 <= i < kept@.len() ==> #[trigger] kept@[i] < files@.len(),
        decreases n - k,
    {
        let i = ord[k];
        assert(s.subrange(0, k + 1).drop_last() =~= s.subrange(0, k as int));
        assert(s.subrange(0, k + 1).last() == i as int);
        let ghost e0 = evicted@;
        let ghost k0 = kept@;
        if delete_all || files[i].age_days > max_age {
            evicted.push(i);
            assert(ints(evicted@) =~= ints(e0).push(i as int));
        } else {
            kept.push(i);
            assert(ints(kept@) =~= ints(k0).push(i as int));
        }
        k = k + 1;
    }
    assert(s.subrange(0, n as int) =~= s);
    (evicted, kept)
}

/// The size pass over `rest` (oldest first) under `limit`.
fn evict_by_size(files: &Vec<LogFile>, rest: &Vec<usize>, limit: u64) -> (r: Vec<usize>)
    requires
        forall|i: int| 0 <= i < rest@.len() ==> #[trigger] rest@[i] < files@.len(),
    ensures
        ints(r@) == size_evicted(files@, ints(rest@), limit),
        r@.len() <= rest@.len(),
        forall|i: int| 0 <= i < r@.len() ==> #[trigger] r@[i] < files@.len(),
{
    let n = rest.len();
    let ghost s = ints(rest@);
    let mut running = sum_sizes(files, rest);
    let mut out: Vec<usize> = Vec::new();
    let mut k: usize = 0;
    assert(s.subrange(0, n as int) =~= s);
    assert(ints(out@) + size_evicted(files@, s.subrange(0, n as int), limit) =~= size_evicted(files@, s, limit));
    while k < n && running > limit as u128
        invariant
            n == rest@.len(),
            s == ints(rest@),
            k <= n,
            running == total_size(files@, s.subrange(k as int, n as int)),
            ints(out@) == s.subrange(0, k as int),
            out@.len() == k,
            forall|j: int| 0 <= j < out@.len() ==> #[trigger] out@[j] < files@.len(),
            ints(out@) + size_evicted(files@, s.subrange(k as int, n as int), limit) == size_evicted(files@, s, limit),
            forall|i: int| 0 <= i < rest@.len() ==> #[trigger] rest@[i] < files@.len(),
        decreases n - k,
    {
        let i = rest[k];
        let ghost t = s.subrange(k as int, n as int);
        assert(t.drop_first() =~= s.subrange(k + 1, n as int));
        assert(t[0] == i as int);
        proof {
            lemma_total_size_bound(files@, t.drop_first());
        }
        running = running - files[i].size as u128;
        let ghost o0 = out@;
        out.push(i);
        assert(ints(out@) =~= ints(o0).push(i as int));
        assert(forall|j: int| 0 <= j < o0.len() ==> out@[j] == o0[j]);
        assert(ints(out@) =~= s.subrange(0, k + 1));
        assert(ints(out@) + size_evicted(files@, s.subrange(k + 1, n as int), limit) =~= ints(o0) + size_evicted(files@, t, limit));
        k = k + 1;
    }
    proof {
        let t = s.subrange(k as int, n as int);
        assert(size_evicted(files@, t, limit) =~= Seq::<int>::empty());
        assert(ints(out@) =~= size_evicted(files@, s, limit));
    }
    out
}

/// The indices of the files one sweep evicts, in eviction order.
pub fn plan_eviction(files: &Vec<LogFile>, max_age: u64, limit: Option<u64>, delete_all: bool) -> (r: Vec<usize>)
    ensures
        ints(r@) == eviction_plan(files@, max_age, limit, delete_all),
        r@.len() <= files@.len(),
        forall|i: int| 0 <= i < r@.len() ==> #[trigger] r@[i] < files@.len(),
{
    let ord = sort_oldest_first(files);
    proof {
        lemma_oldest_first_indices(files@, files@.len());
        assert(ints(ord@).len() == ord@.len());
    }
    let (mut evicted, kept) = split_by_age(files, &ord, max_age, delete_all);
    let ghost e0 = evicted@;
    match limit {
        Some(l) => {
            let mut more = evict_by_size(files, &kept, l);
            evicted.append(&mut more);
            assert(ints(evicted@) =~= ints(e0) + size_evicted(files@, ints(kept@), l));
        },
        None => {
            assert(ints(evicted@) =~= ints(e0) + Seq::<int>::empty());
        },
    }
    evicted
}

/// The characters of each string.
pub open spec fn strs(v: Seq<String>) -> Seq<Seq<char>> {
    v.map_values(|x: String| x@)
}

/// The paths of the files at `idx`.
pub open spec fn paths_at(files: Seq<LogFile>, idx: Seq<int>) -> Seq<Seq<char>> {
    idx.map_values(|i: int| files[i].path@)
}

/// The entries of `plan` whose removal succeeded.
pub open spec fn removed_only(plan: Seq<int>, removed: Seq<bool>) -> Seq<int>
    decreases plan.len(),
{
    if plan.len() == 0 {
        Seq::empty()
    } else {
        let rest = removed_only(plan.drop_last(), removed);
        if removed[plan.len() - 1] {
            rest.push(plan.last())
        } else {
            rest
        }
    }
}

/// Options of one sweep; `None` falls back to the configured policy.
pub struct CleanupOptions {
    pub max_age_days: Option<u32>,
    pub max_total_size: Option<String>,
    pub delete_all: bool,
    pub dry_run: bool,
}

impl Default for CleanupOptions {
    fn default() -> (r: CleanupOptions)
        ensures
            r.max_age_days is None,
            r.max_total_size is None,
            !r.delete_all,
            !r.dry_run,
    {
        CleanupOptions { max_age_days: None, max_total_size: None, delete_all: false, dry_run: false }
    }
}

/// Outcome of a sweep: what was deleted, or in a dry run what would be.
pub struct CleanupResult {
    pub deleted: Vec<String>,
    pub freed: u128,
    pub would_delete: Vec<String>,
    pub would_free: u128,
}

fn paths_and_bytes(files: &Vec<LogFile>, plan: &Vec<usize>, keep: &Vec<bool>, use_keep: bool) -> (r: (Vec<String>, u128))
    requires
        forall|i: int| 0 <= i < plan@.len() ==> #[trigger] plan@[i] < files@.len(),
        use_keep ==> keep@.len() == plan@.len(),
    ensures
        use_keep ==> strs(r.0@) == paths_at(files@, removed_only(ints(plan@), keep@)) && r.1 == total_size(
            files@,
            removed_only(ints(plan@), keep@),
        ),
        !use_keep ==> strs(r.0@) == paths_at(files@, ints(plan@)) && r.1 == total_size(files@, ints(plan@)),
{
    let n = plan.len();
    let ghost s = ints(plan@);
    let mut out: Vec<String> = Vec::new();
    let mut bytes: u128 = 0;
    let ghost mut chosen: Seq<int> = Seq::empty();
    let mut k: usize = 0;
    while k < n
        invariant
            n == plan@.len(),
            s == ints(plan@),
            k <= n,
            use_keep ==> keep@.len() == plan@.len(),
            forall|i: int| 0 <= i < plan@.len() ==> #[trigger] plan@[i] < files@.len(),
            use_keep ==> chosen == removed_only(s.subrange(0, k as int), keep@),
            !use_keep ==> chosen == s.subrange(0, k as int),
            chosen.len() <= k,
            strs(out@) == paths_at(files@, chosen),
            bytes == total_size(files@, chosen),
        decreases n - k,
    {
        let i = plan[k];
        assert(s.subrange(0, k + 1).drop_last() =~= s.subrange(0, k as int));
        assert(s.subrange(0, k + 1).last() == i as int);
        if !use_keep || keep[k] {
            proof {
                lemma_total_size_push(files@, chosen, i as int);
                lemma_total_size_bound(files@, chosen.push(i as int));
                lemma_usize_len_bound(n as int);
                assert((chosen.len() + 1) * 0xFFFF_FFFF_FFFF_FFFF <= n * 0xFFFF_FFFF_FFFF_FFFF) by (nonlinear_arith)
                    requires chosen.len() + 1 <= n;
            }
            let ghost o0 = out@;
            out.push(files[i].path.clone());
            bytes = bytes + files[i].size as u128;
            proof {
                chosen = chosen.push(i as int);
                assert(strs(out@) =~= strs(o0).push(files@[i as int].path@));
                assert(paths_at(files@, chosen) =~= paths_at(files@, chosen.drop_last()).push(files@[i as int].path@));
                assert(chosen.drop_last() =~= chosen.drop_last());
            }
        }
        k = k + 1;
    }
    assert(s.subrange(0, n as int) =~= s);
    (out, bytes)
}

/// Reports a sweep that evicts `plan`. In a dry run nothing was touched and the plan
/// is what would go; otherwise `removed[i]` tells whether removing `plan[i]` succeeded.
pub fn cleanup_report(files: &Vec<LogFile>, plan: &Vec<usize>, dry_run: bool, removed: &Vec<bool>) -> (r: CleanupResult)
    requires
        forall|i: int| 0 <= i < plan@.len() ==> #[trigger] plan@[i] < files@.len(),
        !dry_run ==> removed@.len() == plan@.len(),
    ensures
        dry_run ==> strs(r.would_delete@) == paths_at(files@, ints(plan@)) && r.would_free == total_size(
            files@,
            ints(plan@),
        ) && r.deleted@.len() == 0 && r.freed == 0,
        !dry_run ==> strs(r.deleted@) == paths_at(files@, removed_only(ints(plan@), removed@)) && r.freed
            == total_size(files@, removed_only(ints(plan@), removed@)) && r.would_delete@.len() == 0
            && r.would_free == 0,
{
    if dry_run {
        let (would_delete, would_free) = paths_and_bytes(files, plan, removed, false);
        CleanupResult { deleted: Vec::new(), freed: 0, would_delete, would_free }
    } else {
        let (deleted, freed) = paths_and_bytes(files, plan, removed, true);
        CleanupResult { deleted, freed, would_delete: Vec::new(), would_free: 0 }
    }
}

/// A dry run reports exactly the paths and bytes that a real sweep with the same
/// inputs deletes and frees, when every removal succeeds.
pub proof fn lemma_dry_run_equivalence(files: Seq<LogFile>, plan: Seq<int>, removed: Seq<bool>)
    requires
        removed.len() == plan.len(),
        forall|i: int| 0 <= i < removed.len() ==> #[trigger] removed[i],
    ensures
        paths_at(files, removed_only(plan, removed)) == paths_at(files, plan),
        total_size(files, removed_only(plan, removed)) == total_size(files, plan),
    decreases plan.len(),
{
    lemma_removed_all(plan, removed);
}

proof fn lemma_removed_all(plan: Seq<int>, removed: Seq<bool>)
    requires
        removed.len() >= plan.len(),
        forall|i: int| 0 <= i < plan.len() ==> #[trigger] removed[i],
    ensures
        removed_only(plan, removed) == plan,
    decreases plan.len(),
{
    if plan.len() > 0 {
        lemma_removed_all(plan.drop_last(), removed);
        assert(removed[plan.len() - 1]);
        assert(plan.drop_last().push(plan.last()) =~= plan);
    }
}

/// Whole days from `mtime` to `now` (nanoseconds since the epoch); 0 when the time is
/// unknown or in the future.
pub open spec fn days_between(now: u128, mtime: Option<u128>) -> u64 {
    match mtime {
        Some(m) => if m <= now {
            let d = (now - m) / 86_400_000_000_000;
            if d > u64::MAX { u64::MAX } else { d as u64 }
        } else {
            0
        },
        None => 0,
    }
}

/// Age in whole days of a file modified at `mtime`, seen at `now`.
pub fn age_days(now: u128, mtime: Option<u128>) -> (r: u64)
    ensures
        r == days_between(now, mtime),
{
    match mtime {
        Some(m) => if m <= now {
            let d = (now - m) / 86_400_000_000_000;
            if d > u64::MAX as u128 {
                u64::MAX
            } else {
                d as u64
            }
        } else {
            0
        },
        None => 0,
    }
}

/// Summary of the log files found.
pub struct LogStats {
    pub total_files: usize,
    pub total_size: u128,
    pub oldest_file: Option<String>,
    pub newest_file: Option<String>,
    pub files_by_age: Vec<(String, u64, u64)>,
}

/// `o` is the last of the oldest files.
pub open spec fn is_oldest(files: Seq<LogFile>, o: int) -> bool {
    &&& 0 <= o < files.len()
    &&& forall|j: int| 0 <= j < files.len() ==> #[trigger] files[j].age_days <= files[o].age_days
    &&& forall|j: int| o < j < files.len() ==> #[trigger] files[j].age_days < files[o].age_days
}

/// `w` is the first of the newest files.
pub open spec fn is_newest(files: Seq<LogFile>, w: int) -> bool {
    &&& 0 <= w < files.len()
    &&& forall|j: int| 0 <= j < files.len() ==> #[trigger] files[j].age_days >= files[w].age_days
    &&& forall|j: int| 0 <= j < w ==> #[trigger] files[j].age_days > files[w].age_days
}

/// All indices of a sequence of `n` files, in order.
pub open spec fn all_indices(n: nat) -> Seq<int> {
    Seq::new(n, |i: int| i)
}

/// Counts, sizes, the oldest and newest file, and each file's (path, size, age).
pub fn stats(files: &Vec<LogFile>) -> (r: LogStats)
    ensures
        r.total_files == files@.len(),
        r.total_size == total_size(files@, all_indices(files@.len())),
        files@.len() == 0 ==> r.oldest_file is None && r.newest_file is None,
        files@.len() > 0 ==> exists|o: int| is_oldest(files@, o) && r.oldest_file == Some(files@[o].path),
        files@.len() > 0 ==> exists|w: int| is_newest(files@, w) && r.newest_file == Some(files@[w].path),
        r.files_by_age@.len() == files@.len(),
        forall|i: int| 0 <= i < files@.len() ==> (#[trigger] r.files_by_age@[i]).0 == files@[i].path
            && r.files_by_age@[i].1 == files@[i].size && r.files_by_age@[i].2 == files@[i].age_days,
{
    let n = files.len();
    let mut total: u128 = 0;
    let mut by_age: Vec<(String, u64, u64)> = Vec::new();
    let mut oldest: usize = 0;
    let mut newest: usize = 0;
    let mut k: usize = 0;
    while k < n
        invariant
            n == files@.len(),
            k <= n,
            total == total_size(files@, all_indices(k as nat)),
            by_age@.len() == k,
            forall|i: int| 0 <= i < k ==> (#[trigger] by_age@[i]).0 == files@[i].path
                && by_age@[i].1 == files@[i].size && by_age@[i].2 == files@[i].age_days,
            k > 0 ==> is_oldest(files@.subrange(0, k as int), oldest as int),
            k > 0 ==> is_newest(files@.subrange(0, k as int), newest as int),
        decreases n - k,
    {
        proof {
            assert(all_indices((k + 1) as nat) =~= all_indices(k as nat).push(k as int));
            lemma_total_size_push(files@, all_indices(k as nat), k as int);
            lemma_total_size_bound(files@, all_indices((k + 1) as nat));
            lemma_usize_len_bound(n as int);
            assert((k + 1) * 0xFFFF_FFFF_FFFF_FFFF <= n * 0xFFFF_FFFF_FFFF_FFFF) by (nonlinear_arith)
                requires k + 1 <= n;
        }
        let f = &files[k];
        total = total + f.size as u128;
        let ghost b0 = by_age@;
        by_age.push((f.path.clone(), f.size, f.age_days));
        assert(forall|i: int| 0 <= i < k ==> by_age@[i] == b0[i]);
        let ghost prev = files@.subrange(0, k as int);
        let ghost cur = files@.subrange(0, k + 1);
        assert(forall|j: int| 0 <= j < k ==> cur[j] == prev[j]);
        if k == 0 || f.age_days >= files[oldest].age_days {
            oldest = k;
        }
        if k == 0 || f.age_days < files[newest].age_days {
            newest = k;
        }
        k = k + 1;
    }
    assert(files@.subrange(0, n as int) =~= files@);
    let oldest_file = if n > 0 { Some(files[oldest].path.clone()) } else { None };
    let newest_file = if n > 0 { Some(files[newest].path.clone()) } else { None };
    LogStats { total_files: n, total_size: total, oldest_file, newest_file, files_by_age: by_age }
}

pub open spec fn pow10(k: nat) -> nat
    decreases k,
{
    if k == 0 {
        1
    } else {
        10 * pow10((k - 1) as nat)
    }
}

pub open spec fn is_digit(c: char) -> bool {
    '0' <= c && c <= '9'
}

/// The value of a string of decimal digits (0 for the empty string).
pub open spec fn digits_value(s: Seq<char>) -> nat
    decreases s.len(),
{
    if s.len() == 0 {
        0
    } else {
        digits_value(s.drop_last()) * 10 + (s.last() as nat - '0' as nat) as nat
    }
}

/// Index of the first `.` in `t`, or its length when there is none.
pub open spec fn dot_pos(t: Seq<char>) -> int
    decreases t.len(),
{
    if t.len() == 0 || t[0] == '.' {
        0
    } else {
        1 + dot_pos(t.drop_first())
    }
}

/// The characters before the first `.`.
pub open spec fn whole_part(t: Seq<char>) -> Seq<char> {
    t.subrange(0, dot_pos(t))
}

/// The characters after the first `.` (none when there is no `.`).
pub open spec fn frac_part(t: Seq<char>) -> Seq<char> {
    if dot_pos(t) < t.len() {
        t.subrange(dot_pos(t) + 1, t.len() as int)
    } else {
        Seq::empty()
    }
}

/// A decimal number `digits[.digits]` with at least one and at most 19 digits, read as
/// (its digits as one integer, how many of them follow the point).
pub open spec fn decimal_text(t: Seq<char>) -> Option<(nat, nat)> {
    let whole = whole_part(t);
    let frac = frac_part(t);
    if (forall|i: int| 0 <= i < whole.len() ==> is_digit(#[trigger] whole[i]))
        && (forall|i: int| 0 <= i < frac.len() ==> is_digit(#[trigger] frac[i]))
        && 1 <= whole.len() + frac.len() <= 19 {
        Some((digits_value(whole) * pow10(frac.len()) + digits_value(frac), frac.len()))
    } else {
        None
    }
}

/// Whole bytes in the decimal number `t` of units of `unit` bytes, rounded down;
/// `None` when `t` is not such a number or the result exceeds `u64`.
pub open spec fn scaled_bytes(t: Seq<char>, unit: nat) -> Option<u64> {
    match decimal_text(t) {
        Some((v, k)) => {
            let b = v * unit / pow10(k);
            if b <= u64::MAX { Some(b as u64) } else { None }
        },
        None => None,
    }
}

/// The number part and byte multiplier of an upper-cased size: a trailing `G`/`GB`,
/// `M`/`MB` or `K`/`KB` selects a power of 1024, and all such trailing units are removed.
pub open spec fn unit_split(u: Seq<char>) -> (Seq<char>, nat) {
    if ends_with(u, "G"@) || ends_with(u, "GB"@) {
        (strip_trailing(strip_trailing(u, "GB"@), "G"@), 1073741824)
    } else if ends_with(u, "M"@) || ends_with(u, "MB"@) {
        (strip_trailing(strip_trailing(u, "MB"@), "M"@), 1048576)
    } else if ends_with(u, "K"@) || ends_with(u, "KB"@) {
        (strip_trailing(strip_trailing(u, "KB"@), "K"@), 1024)
    } else {
        (u, 1)
    }
}

/// The byte count a size text such as `500M` or `1.5G` stands for.
pub open spec fn size_of_text(s: Seq<char>) -> Option<u64> {
    let (num, unit) = unit_split(upper_of(trim_of(s)));
    scaled_bytes(trim_of(num), unit)
}

proof fn lemma_digits_value_bound(s: Seq<char>)
    requires
        forall|i: int| 0 <= i < s.len() ==> is_digit(#[trigger] s[i]),
    ensures
        digits_value(s) < pow10(s.len()),
    decreases s.len(),
{
    if s.len() > 0 {
        let t = s.drop_last();
        assert forall|i: int| 0 <= i < t.len() implies is_digit(#[trigger] t[i]) by {
            assert(t[i] == s[i]);
        }
        lemma_digits_value_bound(t);
        assert(is_digit(s[s.len() - 1]));
        let d = (s.last() as nat - '0' as nat) as nat;
        assert(d <= 9);
        let a = digits_value(t);
        let b = pow10(t.len());
        assert(a * 10 + d < b * 10) by (nonlinear_arith)
            requires a < b, d <= 9;
    }
}

proof fn lemma_pow10_bound(k: nat)
    requires
        k <= 19,
    ensures
        1 <= pow10(k) <= 10_000_000_000_000_000_000,
    decreases k,
{
    lemma_pow10_mono(k, 19);
    lemma_pow10_pos(k);
    reveal_with_fuel(pow10, 20);
}

proof fn lemma_pow10_mono(a: nat, b: nat)
    requires
        a <= b,
    ensures
        pow10(a) <= pow10(b),
    decreases b,
{
    if a < b {
        lemma_pow10_mono(a, (b - 1) as nat);
        lemma_pow10_pos((b - 1) as nat);
    }
}

proof fn lemma_pow10_pos(k: nat)
    ensures
        pow10(k) >= 1,
    decreases k,
{
    if k > 0 {
        lemma_pow10_pos((k - 1) as nat);
    }
}

fn pow10_exec(k: usize) -> (r: u128)
    requires
        k <= 19,
    ensures
        r == pow10(k as nat),
{
    let mut r: u128 = 1;
    let mut i: usize = 0;
    while i < k
        invariant
            i <= k,
            k <= 19,
            r == pow10(i as nat),
        decreases k - i,
    {
        proof {
            lemma_pow10_bound(i as nat);
        }
        r = r * 10;
        i = i + 1;
    }
    r
}

/// The value of the digits `t[from..to]`, or `None` if one is not a digit.
fn digits_in(t: &str, from: usize, to: usize) -> (r: Option<u128>)
    requires
        from <= to <= t@.len(),
        to - from <= 19,
    ensures
        r is Some <==> forall|i: int| from <= i < to ==> is_digit(#[trigger] t@[i]),
        r matches Some(v) ==> v == digits_value(t@.subrange(from as int, to as int)),
{
    let mut v: u128 = 0;
    let mut i: usize = from;
    assert(t@.subrange(from as int, from as int) =~= Seq::<char>::empty());
    while i < to
        invariant
            from <= i <= to <= t@.len(),
            to - from <= 19,
            forall|j: int| from <= j < i ==> is_digit(#[trigger] t@[j]),
            v == digits_value(t@.subrange(from as int, i as int)),
        decreases to - i,
    {
        let c = t.get_char(i);
        if !('0' <= c && c <= '9') {
            return None;
        }
        let ghost seg = t@.subrange(from as int, i + 1);
        assert(seg.drop_last() =~= t@.subrange(from as int, i as int));
        proof {
            let pre = t@.subrange(from as int, i as int);
            assert forall|j: int| 0 <= j < pre.len() implies is_digit(#[trigger] pre[j]) by {
                assert(pre[j] == t@[from + j]);
            }
            lemma_digits_value_bound(pre);
            lemma_pow10_bound(pre.len());
        }
        v = v * 10 + (c as u32 - '0' as u32) as u128;
        i = i + 1;
    }
    Some(v)
}

fn find_dot(t: &str) -> (r: usize)
    ensures
        r as int == dot_pos(t@),
        r <= t@.len(),
{
    let n = t.unicode_len();
    let mut i: usize = 0;
    assert(t@.subrange(0, n as int) =~= t@);
    while i < n && t.get_char(i) != '.'
        invariant
            n == t@.len(),
            i <= n,
            dot_pos(t@) == i + dot_pos(t@.subrange(i as int, n as int)),
        decreases n - i,
    {
        assert(t@.subrange(i as int, n as int).drop_first() =~= t@.subrange(i + 1, n as int));
        i = i + 1;
    }
    i
}

/// Whole bytes in the decimal number `t` of `unit`-byte units (rounded down).
pub fn scale_decimal(t: &str, unit: u64) -> (r: Option<u64>)
    requires
        unit <= 1073741824,
    ensures
        r == scaled_bytes(t@, unit as nat),
{
    let n = t.unicode_len();
    let p = find_dot(t);
    let fs: usize = if p < n { p + 1 } else { n };
    let ghost whole = whole_part(t@);
    let ghost frac = frac_part(t@);
    assert(t@.subrange(fs as int, n as int) =~= frac);
    if p + (n - fs) < 1 || p + (n - fs) > 19 {
        return None;
    }
    let w = digits_in(t, 0, p);
    let f = digits_in(t, fs, n);
    proof {
        if w is None {
            let j = choose|j: int| 0 <= j < p && !is_digit(#[trigger] t@[j]);
            assert(whole[j] == t@[j]);
        }
        if f is None {
            let j = choose|j: int| fs <= j < n && !is_digit(#[trigger] t@[j]);
            assert(frac[j - fs] == t@[j]);
        }
        if w is Some {
            assert forall|i: int| 0 <= i < whole.len() implies is_digit(#[trigger] whole[i]) by {
                assert(whole[i] == t@[i]);
            }
        }
        if f is Some {
            assert forall|i: int| 0 <= i < frac.len() implies is_digit(#[trigger] frac[i]) by {
                assert(frac[i] == t@[fs + i]);
            }
        }
    }
    match (w, f) {
        (Some(wv), Some(fv)) => {
            let k = n - fs;
            let scale = pow10_exec(k);
            proof {
                lemma_digits_value_bound(whole);
                lemma_digits_value_bound(frac);
                lemma_pow10_bound(k as nat);
                lemma_pow10_bound(p as nat);
                lemma_pow10_bound((p + k) as nat);
                lemma_pow10_add(p as nat, k as nat);
                let a = digits_value(whole);
                let b = digits_value(frac);
                let pk = pow10(k as nat);
                let pp = pow10(p as nat);
                assert(a * pk + b < pp * pk) by (nonlinear_arith)
                    requires a < pp, b < pk, pk >= 1;
                assert(a * pk <= 10_000_000_000_000_000_000 * 10_000_000_000_000_000_000) by (nonlinear_arith)
                    requires a < pp, pp <= 10_000_000_000_000_000_000, pk <= 10_000_000_000_000_000_000;
                assert((a * pk + b) * unit <= 10_000_000_000_000_000_000 * 1073741824) by (nonlinear_arith)
                    requires a * pk + b < pp * pk, pp * pk <= 10_000_000_000_000_000_000, unit <= 1073741824;
            }
            let v = wv * scale + fv;
            let bytes = v * unit as u128 / scale;
            assert(whole.len() == p && frac.len() == k);
            assert(decimal_text(t@) == Some((v as nat, k as nat)));
            assert(bytes as nat == (v as nat) * (unit as nat) / pow10(k as nat));
            if bytes <= u64::MAX as u128 {
                Some(bytes as u64)
            } else {
                None
            }
        },
        _ => {
            proof {
                if w is None {
                    let j = choose|j: int| 0 <= j < p && !is_digit(#[trigger] t@[j]);
                    assert(whole[j] == t@[j]);
                    assert(!is_digit(whole[j]));
                } else {
                    let j = choose|j: int| fs <= j < n && !is_digit(#[trigger] t@[j]);
                    assert(frac[j - fs] == t@[j]);
                    assert(!is_digit(frac[j - fs]));
                }
                assert(dot_pos(t@) == p);
                assert(decimal_text(t@) is None);
            }
            None
        },
    }
}

proof fn lemma_pow10_add(a: nat, b: nat)
    ensures
        pow10(a) * pow10(b) == pow10(a + b),
    decreases a,
{
    if a > 0 {
        lemma_pow10_add((a - 1) as nat, b);
        let x = pow10((a - 1) as nat);
        let y = pow10(b);
        let z = pow10((a - 1 + b) as nat);
        assert(pow10(a + b) == 10 * z);
        assert(pow10(a) == 10 * x);
        assert(x * y == z);
        assert((10 * x) * y == 10 * (x * y)) by (nonlinear_arith);
    } else {
        assert(pow10(0) == 1);
        assert(a + b == b);
    }
}

/// Parses a size such as `500M`, `1G` or `1.5GB` (K, M and G are powers of 1024).
pub fn parse_size(s: &str) -> (r: Option<u64>)
    ensures
        r == size_of_text(s@),
{
    let upper = to_upper(trim(s));
    let u = upper.as_str();
    let (num, unit): (&str, u64) = if str_ends_with(u, "G") || str_ends_with(u, "GB") {
        (trim_trailing(trim_trailing(u, "GB"), "G"), 1073741824)
    } else if str_ends_with(u, "M") || str_ends_with(u, "MB") {
        (trim_trailing(trim_trailing(u, "MB"), "M"), 1048576)
    } else if str_ends_with(u, "K") || str_ends_with(u, "KB") {
        (trim_trailing(trim_trailing(u, "KB"), "K"), 1024)
    } else {
        (u, 1)
    };
    scale_decimal(trim(num), unit)
}

/// The age threshold in force: the option's, else the configured one.
pub open spec fn effective_max_age(options: CleanupOptions, retention: RetentionConfig) -> u32 {
    match options.max_age_days {
        Some(d) => d,
        None => retention.max_age_days,
    }
}

/// The size limit in force: the option's text, else the configured text, parsed.
pub open spec fn effective_limit(options: CleanupOptions, retention: RetentionConfig) -> Option<u64> {
    match options.max_total_size {
        Some(t) => size_of_text(t@),
        None => match retention.max_total_size {
            Some(t) => size_of_text(t@),
            None => None,
        },
    }
}

/// The files one sweep under `retention` and `options` evicts, in eviction order.
/// The plan does not depend on `dry_run`: a dry run reports it, a real sweep removes it.
pub fn cleanup_plan(retention: &RetentionConfig, options: &CleanupOptions, files: &Vec<LogFile>) -> (r: Vec<usize>)
    ensures
        ints(r@) == eviction_plan(
            files@,
            effective_max_age(*options, *retention) as u64,
            effective_limit(*options, *retention),
            options.delete_all,
        ),
        forall|i: int| 0 <= i < r@.len() ==> #[trigger] r@[i] < files@.len(),
{
    let max_age = match options.max_age_days {
        Some(d) => d,
        None => retention.max_age_days,
    };
    let limit = match &options.max_total_size {
        Some(t) => parse_size(t.as_str()),
        None => match &retention.max_total_size {
            Some(t) => parse_size(t.as_str()),
            None => None,
        },
    };
    plan_eviction(files, max_age as u64, limit, options.delete_all)
}

/// The decimal digits of `n`.
pub open spec fn decimal(n: nat) -> Seq<char>
    decreases n,
{
    if n < 10 {
        seq![digit_char(n)]
    } else {
        decimal(n / 10) + seq![digit_char(n % 10)]
    }
}

pub open spec fn digit_char(d: nat) -> char {
    if d == 0 { '0' } else if d == 1 { '1' } else if d == 2 { '2' } else if d == 3 { '3' } else if d == 4 { '4' }
    else if d == 5 { '5' } else if d == 6 { '6' } else if d == 7 { '7' } else if d == 8 { '8' } else { '9' }
}

/// `q / d` rounded to the nearest integer, ties to even.
pub open spec fn round_half_even(q: nat, d: nat) -> nat {
    let h = q / d;
    let r = q % d;
    if 2 * r > d || (2 * r == d && h % 2 == 1) {
        h + 1
    } else {
        h
    }
}

/// `h` hundredths written with two decimals.
pub open spec fn two_decimals(h: nat) -> Seq<char> {
    decimal(h / 100) + seq!['.', digit_char((h % 100) / 10), digit_char(h % 10)]
}

/// A byte count for people: bytes below 1 KiB, else KB, MB or GB (powers of 1024)
/// with two decimals, rounded half to even.
pub open spec fn size_text(bytes: u64) -> Seq<char> {
    if bytes >= 1073741824 {
        two_decimals(round_half_even(bytes as nat * 100, 1073741824)) + " GB"@
    } else if bytes >= 1048576 {
        two_decimals(round_half_even(bytes as nat * 100, 1048576)) + " MB"@
    } else if bytes >= 1024 {
        two_decimals(round_half_even(bytes as nat * 100, 1024)) + " KB"@
    } else {
        decimal(bytes as nat) + " B"@
    }
}

fn push_digit(s: &mut String, d: u128)
    requires
        d < 10,
    ensures
        final(s)@ == old(s)@ + seq![digit_char(d as nat)],
{
    let t = if d == 0 { "0" } else if d == 1 { "1" } else if d == 2 { "2" } else if d == 3 { "3" }
        else if d == 4 { "4" } else if d == 5 { "5" } else if d == 6 { "6" } else if d == 7 { "7" }
        else if d == 8 { "8" } else { "9" };
    proof {
        reveal_strlit("0");
        reveal_strlit("1");
        reveal_strlit("2");
        reveal_strlit("3");
        reveal_strlit("4");
        reveal_strlit("5");
        reveal_strlit("6");
        reveal_strlit("7");
        reveal_strlit("8");
        reveal_strlit("9");
    }
    assert(t@ =~= seq![digit_char(d as nat)]);
    s.append(t);
}

fn push_decimal(s: &mut String, n: u128)
    ensures
        final(s)@ == old(s)@ + decimal(n as nat),
    decreases n,
{
    if n >= 10 {
        push_decimal(s, n / 10);
    }
    push_digit(s, n % 10);
    assert(final(s)@ =~= old(s)@ + decimal(n as nat));
}

fn push_two_decimals(s: &mut String, h: u128)
    ensures
        final(s)@ == old(s)@ + two_decimals(h as nat),
{
    push_decimal(s, h / 100);
    s.append(".");
    proof {
        reveal_strlit(".");
    }
    push_digit(s, (h % 100) / 10);
    push_digit(s, h % 10);
    assert(final(s)@ =~= old(s)@ + two_decimals(h as nat));
}

fn rounded_hundredths(bytes: u64, d: u128) -> (r: u128)
    requires
        0 < d <= 1073741824,
    ensures
        r == round_half_even(bytes as nat * 100, d as nat),
{
    let q = bytes as u128 * 100;
    let h = q / d;
    let r = q % d;
    if 2 * r > d || (2 * r == d && h % 2 == 1) {
        h + 1
    } else {
        h
    }
}

/// Formats a byte count, e.g. `1.50 KB`.
pub fn format_size(bytes: u64) -> (r: String)
    ensures
        r@ == size_text(bytes),
{
    let mut s = String::new();
    if bytes >= 1073741824 {
        push_two_decimals(&mut s, rounded_hundredths(bytes, 1073741824));
        s.append(" GB");
    } else if bytes >= 1048576 {
        push_two_decimals(&mut s, rounded_hundredths(bytes, 1048576));
        s.append(" MB");
    } else if bytes >= 1024 {
        push_two_decimals(&mut s, rounded_hundredths(bytes, 1024));
        s.append(" KB");
    } else {
        push_decimal(&mut s, bytes as u128);
        s.append(" B");
    }
    assert(s@ =~= size_text(bytes));
    s
}

} // verus!
