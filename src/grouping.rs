//! Cutting the ordered shared modules into batches: first by count, then by size.

use vstd::prelude::*;
use vstd::seq_lib::lemma_flatten_concat;
use crate::model::{Module, double_weight};

verus! {

/// The most modules that one window of the ordered shared modules holds.
pub const MAX_MODULES_PER_CHUNK: usize = 500;

/// The size, in bytes, above which a window is cut again by size.
pub const MAX_SIZE_PER_CHUNK: u64 = 5000000;

/// The views of a list of id lists.
pub open spec fn rows(v: Seq<Vec<usize>>) -> Seq<Seq<usize>> {
    v.map_values(|r: Vec<usize>| r@)
}

/// The sum of the raw sizes of the modules `s`.
pub open spec fn raw_size(mods: Seq<Module>, s: Seq<usize>) -> int
    decreases s.len(),
{
    if s.len() == 0 {
        0
    } else {
        raw_size(mods, s.drop_last()) + mods[s.last() as int].size
    }
}

/// Twice the weighted size estimate of the modules `s`.
pub open spec fn double_weighted_size(mods: Seq<Module>, s: Seq<usize>) -> int
    decreases s.len(),
{
    if s.len() == 0 {
        0
    } else {
        double_weighted_size(mods, s.drop_last()) + double_weight(mods[s.last() as int])
    }
}

/// `s` cut into consecutive windows of `w` modules; the last may hold fewer.
pub open spec fn windows(s: Seq<usize>, w: nat) -> Seq<Seq<usize>>
    decreases s.len(),
{
    if s.len() == 0 || w == 0 {
        Seq::empty()
    } else if s.len() <= w {
        seq![s]
    } else {
        seq![s.take(w as int)] + windows(s.skip(w as int), w)
    }
}

/// The greedy walk over the first `n` modules of `s`: the batches closed so
/// far, the open batch, and the raw size of the open batch. A module joins the
/// open batch unless that would take a non-empty batch above `max`.
pub open spec fn size_split_walk(mods: Seq<Module>, s: Seq<usize>, max: int, n: int) -> (Seq<Seq<usize>>, Seq<usize>, int)
    decreases n,
{
    if n <= 0 {
        (Seq::empty(), Seq::empty(), 0)
    } else {
        let prev = size_split_walk(mods, s, max, n - 1);
        let x = s[n - 1];
        let xs = mods[x as int].size as int;
        if prev.1.len() > 0 && prev.2 + xs > max {
            (prev.0.push(prev.1), seq![x], xs)
        } else {
            (prev.0, prev.1.push(x), prev.2 + xs)
        }
    }
}

/// `s` cut greedily by raw size; the last batch is kept even if small.
pub open spec fn size_split(mods: Seq<Module>, s: Seq<usize>, max: int) -> Seq<Seq<usize>> {
    let w = size_split_walk(mods, s, max, s.len() as int);
    if w.1.len() > 0 {
        w.0.push(w.1)
    } else {
        w.0
    }
}

/// The batches of one window: the window itself, unless its weighted estimate
/// is above `max`, in which case it is cut by raw size.
pub open spec fn window_batches(mods: Seq<Module>, win: Seq<usize>, max: int) -> Seq<Seq<usize>> {
    if double_weighted_size(mods, win) > 2 * max {
        size_split(mods, win, max)
    } else {
        seq![win]
    }
}

/// The batches of each window, one after the other.
pub open spec fn batches_of_windows(mods: Seq<Module>, ws: Seq<Seq<usize>>, max: int) -> Seq<Seq<usize>>
    decreases ws.len(),
{
    if ws.len() == 0 {
        Seq::empty()
    } else {
        window_batches(mods, ws[0], max) + batches_of_windows(mods, ws.drop_first(), max)
    }
}

/// All batches for the ordered modules `order`.
pub open spec fn plan(mods: Seq<Module>, order: Seq<usize>, max_modules: nat, max_size: int) -> Seq<Seq<usize>> {
    batches_of_windows(mods, windows(order, max_modules), max_size)
}

/// All ids in `s` name a module of `mods`.
pub open spec fn ids_in(mods: Seq<Module>, s: Seq<usize>) -> bool {
    forall|i: int| 0 <= i < s.len() ==> #[trigger] s[i] < mods.len()
}

/// A copy of `v[lo..hi]`.
pub fn copy_range(v: &Vec<usize>, lo: usize, hi: usize) -> (r: Vec<usize>)
    requires
        lo <= hi <= v@.len(),
    ensures
        r@ == v@.subrange(lo as int, hi as int),
{
    let mut r: Vec<usize> = Vec::new();
    let mut i: usize = lo;
    while i < hi
        invariant
            lo <= i <= hi <= v@.len(),
            r@ == v@.subrange(lo as int, i as int),
        decreases hi - i,
    {
        r.push(v[i]);
        i += 1;
        assert(r@ =~= v@.subrange(lo as int, i as int));
    }
    r
}

/// The ordered modules cut into windows of at most `max_modules`.
pub fn count_windows(order: &Vec<usize>, max_modules: usize) -> (r: Vec<Vec<usize>>)
    requires
        max_modules > 0,
    ensures
        rows(r@) == windows(order@, max_modules as nat),
{
    let mut r: Vec<Vec<usize>> = Vec::new();
    let mut start: usize = 0;
    let n = order.len();
    proof {
        assert(order@.skip(0) =~= order@);
        assert(rows(r@) =~= Seq::<Seq<usize>>::empty());
        assert(rows(r@) + windows(order@, max_modules as nat) =~= windows(order@, max_modules as nat));
    }
    while start < n
        invariant
            n == order@.len(),
            start <= n,
            max_modules > 0,
            rows(r@) + windows(order@.skip(start as int), max_modules as nat) == windows(order@, max_modules as nat),
        decreases n - start,
    {
        let rest = n - start;
        let ghost tail = order@.skip(start as int);
        if rest <= max_modules {
            let win = copy_range(order, start, n);
            let ghost before = rows(r@);
            r.push(win);
            proof {
                assert(win@ =~= tail);
                assert(rows(r@) =~= before.push(win@));
                assert(order@.skip(n as int) =~= Seq::<usize>::empty());
                assert(windows(tail, max_modules as nat) == seq![tail]);
                assert(rows(r@) + windows(order@.skip(n as int), max_modules as nat) =~= before + seq![tail]);
            }
            start = n;
        } else {
            let end = start + max_modules;
            let win = copy_range(order, start, end);
            let ghost before = rows(r@);
            r.push(win);
            proof {
                assert(win@ =~= tail.take(max_modules as int));
                assert(tail.skip(max_modules as int) =~= order@.skip(end as int));
                assert(rows(r@) =~= before.push(win@));
                assert(rows(r@) + windows(order@.skip(end as int), max_modules as nat) =~= before + windows(tail, max_modules as nat));
            }
            start = end;
        }
    }
    proof {
        assert(order@.skip(n as int) =~= Seq::<usize>::empty());
        assert(rows(r@) =~= rows(r@) + windows(order@.skip(n as int), max_modules as nat));
    }
    r
}

proof fn lemma_weight_step(mods: Seq<Module>, s: Seq<usize>, i: int)
    requires
        0 <= i < s.len(),
    ensures
        double_weighted_size(mods, s.take(i + 1)) == double_weighted_size(mods, s.take(i))
            + double_weight(mods[s[i] as int]),
        raw_size(mods, s.take(i + 1)) == raw_size(mods, s.take(i)) + mods[s[i] as int].size,
{
    assert(s.take(i + 1).drop_last() =~= s.take(i));
}

proof fn lemma_weight_monotone(mods: Seq<Module>, s: Seq<usize>, i: int, j: int)
    requires
        0 <= i <= j <= s.len(),
    ensures
        double_weighted_size(mods, s.take(i)) <= double_weighted_size(mods, s.take(j)),
    decreases j - i,
{
    if i < j {
        lemma_weight_step(mods, s, j - 1);
        lemma_weight_monotone(mods, s, i, j - 1);
    }
}

/// Whether the weighted size estimate of `win` is above `max_size`.
pub fn exceeds_size_cap(mods: &Vec<Module>, win: &Vec<usize>, max_size: u64) -> (r: bool)
    requires
        ids_in(mods@, win@),
    ensures
        r == (double_weighted_size(mods@, win@) > 2 * max_size),
{
    let limit: u128 = 2 * (max_size as u128);
    let mut sum: u128 = 0;
    let mut i: usize = 0;
    while i < win.len()
        invariant
            ids_in(mods@, win@),
            limit == 2 * max_size,
            i <= win@.len(),
            sum == double_weighted_size(mods@, win@.take(i as int)),
            sum <= limit,
        decreases win@.len() - i,
    {
        let w = mods[win[i]].double_weight();
        proof {
            lemma_weight_step(mods@, win@, i as int);
        }
        sum = sum + w;
        i += 1;
        if sum > limit {
            proof {
                lemma_weight_monotone(mods@, win@, i as int, win@.len() as int);
                assert(win@.take(win@.len() as int) =~= win@);
            }
            return true;
        }
    }
    assert(win@.take(i as int) =~= win@);
    false
}

/// `win` cut greedily by raw size: a module joins the open batch unless that
/// would take a non-empty batch above `max_size`; the last batch is kept
/// however small.
pub fn size_split_window(mods: &Vec<Module>, win: &Vec<usize>, max_size: u64) -> (r: Vec<Vec<usize>>)
    requires
        ids_in(mods@, win@),
    ensures
        rows(r@) == size_split(mods@, win@, max_size as int),
{
    let mut closed: Vec<Vec<usize>> = Vec::new();
    let mut cur: Vec<usize> = Vec::new();
    let mut cur_size: u64 = 0;
    let mut i: usize = 0;
    while i < win.len()
        invariant
            ids_in(mods@, win@),
            i <= win@.len(),
            (rows(closed@), cur@, cur_size as int) == size_split_walk(mods@, win@, max_size as int, i as int),
        decreases win@.len() - i,
    {
        let x = win[i];
        let xs = mods[x].size;
        let ghost before = rows(closed@);
        if cur.len() > 0 && (cur_size as u128) + (xs as u128) > (max_size as u128) {
            closed.push(cur);
            cur = Vec::new();
            cur.push(x);
            cur_size = xs;
            proof {
                assert(rows(closed@) =~= before.push(closed@.last()@));
                assert(cur@ =~= seq![x]);
            }
        } else {
            cur.push(x);
            cur_size = cur_size + xs;
        }
        i += 1;
    }
    if cur.len() > 0 {
        let ghost before = rows(closed@);
        closed.push(cur);
        proof {
            assert(rows(closed@) =~= before.push(closed@.last()@));
        }
    }
    closed
}

/// The batches of one window: the window itself when its weighted size
/// estimate is within `max_size`, else the window cut greedily by raw size.
pub fn split_window_by_size(mods: &Vec<Module>, win: &Vec<usize>, max_size: u64) -> (r: Vec<Vec<usize>>)
    requires
        ids_in(mods@, win@),
    ensures
        rows(r@) == window_batches(mods@, win@, max_size as int),
{
    if exceeds_size_cap(mods, win, max_size) {
        size_split_window(mods, win, max_size)
    } else {
        let mut r: Vec<Vec<usize>> = Vec::new();
        r.push(copy_range(win, 0, win.len()));
        proof {
            assert(win@.subrange(0, win@.len() as int) =~= win@);
            assert(rows(r@) =~= seq![win@]);
        }
        r
    }
}

/// All batches for the ordered shared modules: windows of `max_modules`, each
/// cut again by size where its weighted estimate is above `max_size`.
pub fn plan_batches(mods: &Vec<Module>, order: &Vec<usize>, max_modules: usize, max_size: u64) -> (r: Vec<Vec<usize>>)
    requires
        max_modules > 0,
        ids_in(mods@, order@),
    ensures
        rows(r@) == plan(mods@, order@, max_modules as nat, max_size as int),
{
    let ws = count_windows(order, max_modules);
    proof {
        lemma_windows_ids(mods@, order@, max_modules as nat);
    }
    let mut r: Vec<Vec<usize>> = Vec::new();
    let mut k: usize = 0;
    proof {
        assert(rows(ws@).skip(0) =~= rows(ws@));
        assert(rows(r@) + batches_of_windows(mods@, rows(ws@), max_size as int) =~= batches_of_windows(mods@, rows(ws@), max_size as int));
    }
    while k < ws.len()
        invariant
            k <= ws@.len(),
            rows(ws@) == windows(order@, max_modules as nat),
            forall|j: int| 0 <= j < rows(ws@).len() ==> ids_in(mods@, #[trigger] rows(ws@)[j]),
            rows(r@) + batches_of_windows(mods@, rows(ws@).skip(k as int), max_size as int)
                == plan(mods@, order@, max_modules as nat, max_size as int),
        decreases ws@.len() - k,
    {
        assert(ids_in(mods@, rows(ws@)[k as int]));
        let bs = split_window_by_size(mods, &ws[k], max_size);
        let ghost before = rows(r@);
        let mut j: usize = 0;
        while j < bs.len()
            invariant
                j <= bs@.len(),
                rows(r@) == before + rows(bs@).take(j as int),
            decreases bs@.len() - j,
        {
            let ghost prev = rows(r@);
            let b = copy_range(&bs[j], 0, bs[j].len());
            r.push(b);
            proof {
                assert(bs@[j as int]@.subrange(0, bs@[j as int]@.len() as int) =~= bs@[j as int]@);
                assert(rows(r@) =~= prev.push(b@));
                assert(rows(bs@)[j as int] == bs@[j as int]@);
                assert(rows(r@) =~= before + rows(bs@).take(j + 1));
            }
            j += 1;
        }
        proof {
            assert(rows(bs@).take(j as int) =~= rows(bs@));
            assert(rows(ws@).skip(k as int).drop_first() =~= rows(ws@).skip(k + 1));
            assert(rows(ws@).skip(k as int)[0] == rows(ws@)[k as int]);
            assert(rows(r@) + batches_of_windows(mods@, rows(ws@).skip(k + 1), max_size as int)
                =~= before + batches_of_windows(mods@, rows(ws@).skip(k as int), max_size as int));
        }
        k += 1;
    }
    proof {
        assert(rows(ws@).skip(k as int) =~= Seq::<Seq<usize>>::empty());
        assert(rows(r@) + Seq::<Seq<usize>>::empty() =~= rows(r@));
    }
    r
}

/// Every window holds modules of `s` only.
proof fn lemma_windows_ids(mods: Seq<Module>, s: Seq<usize>, w: nat)
    requires
        ids_in(mods, s),
    ensures
        forall|j: int| 0 <= j < windows(s, w).len() ==> ids_in(mods, #[trigger] windows(s, w)[j]),
    decreases s.len(),
{
    if s.len() == 0 || w == 0 {
    } else if s.len() <= w {
    } else {
        lemma_windows_ids(mods, s.skip(w as int), w);
        assert forall|j: int| 0 <= j < windows(s, w).len() implies ids_in(mods, #[trigger] windows(s, w)[j]) by {
            if j == 0 {
                assert(ids_in(mods, s.take(w as int)));
            } else {
                assert(windows(s, w)[j] == windows(s.skip(w as int), w)[j - 1]);
            }
        }
    }
}

/// Every window holds at least one and at most `w` modules.
pub proof fn lemma_window_count_bound(s: Seq<usize>, w: nat)
    ensures
        forall|j: int| 0 <= j < windows(s, w).len() ==> 0 < #[trigger] windows(s, w)[j].len() <= w,
    decreases s.len(),
{
    if s.len() == 0 || w == 0 {
    } else if s.len() <= w {
    } else {
        lemma_window_count_bound(s.skip(w as int), w);
        assert forall|j: int| 0 <= j < windows(s, w).len() implies 0 < #[trigger] windows(s, w)[j].len() <= w by {
            if j > 0 {
                assert(windows(s, w)[j] == windows(s.skip(w as int), w)[j - 1]);
            }
        }
    }
}

proof fn lemma_walk_bound(mods: Seq<Module>, s: Seq<usize>, max: int, n: int)
    requires
        0 <= n <= s.len(),
        0 <= max,
        forall|i: int| 0 <= i < s.len() ==> mods[#[trigger] s[i] as int].size <= max,
    ensures
        size_split_walk(mods, s, max, n).2 == raw_size(mods, size_split_walk(mods, s, max, n).1),
        size_split_walk(mods, s, max, n).2 <= max,
        forall|k: int| 0 <= k < size_split_walk(mods, s, max, n).0.len()
            ==> raw_size(mods, #[trigger] size_split_walk(mods, s, max, n).0[k]) <= max,
    decreases n,
{
    if n > 0 {
        lemma_walk_bound(mods, s, max, n - 1);
        let prev = size_split_walk(mods, s, max, n - 1);
        let x = s[n - 1];
        assert(mods[x as int].size <= max);
        assert(seq![x].drop_last() =~= Seq::<usize>::empty());
        assert(prev.1.push(x).drop_last() =~= prev.1);
        assert(raw_size(mods, seq![x].drop_last()) == 0);
        assert(seq![x].last() == x);
        assert(raw_size(mods, seq![x]) == mods[x as int].size);
        assert(raw_size(mods, prev.1.push(x)) == prev.2 + mods[x as int].size);
        if prev.1.len() > 0 && prev.2 + mods[x as int].size > max {
            let cur = size_split_walk(mods, s, max, n);
            assert forall|k: int| 0 <= k < cur.0.len() implies raw_size(mods, #[trigger] cur.0[k]) <= max by {
                if k < prev.0.len() {
                    assert(cur.0[k] == prev.0[k]);
                }
            }
        }
    }
}

/// When no single module is above `max`, every batch of a size cut (the last
/// one included) has a raw size of at most `max`.
pub proof fn lemma_size_split_bound(mods: Seq<Module>, s: Seq<usize>, max: int)
    requires
        0 <= max,
        forall|i: int| 0 <= i < s.len() ==> mods[#[trigger] s[i] as int].size <= max,
    ensures
        forall|k: int| 0 <= k < size_split(mods, s, max).len()
            ==> raw_size(mods, #[trigger] size_split(mods, s, max)[k]) <= max,
{
    lemma_walk_bound(mods, s, max, s.len() as int);
    let w = size_split_walk(mods, s, max, s.len() as int);
    assert forall|k: int| 0 <= k < size_split(mods, s, max).len()
        implies raw_size(mods, #[trigger] size_split(mods, s, max)[k]) <= max by {
        if k < w.0.len() {
            assert(size_split(mods, s, max)[k] == w.0[k]);
        }
    }
}

proof fn lemma_walk_flatten(mods: Seq<Module>, s: Seq<usize>, max: int, n: int)
    requires
        0 <= n <= s.len(),
    ensures
        size_split_walk(mods, s, max, n).0.flatten() + size_split_walk(mods, s, max, n).1
            == s.take(n),
    decreases n,
{
    if n <= 0 {
        assert(s.take(0) =~= Seq::<usize>::empty());
        assert(Seq::<Seq<usize>>::empty().flatten() + Seq::<usize>::empty() =~= Seq::<usize>::empty());
    } else {
        lemma_walk_flatten(mods, s, max, n - 1);
        let prev = size_split_walk(mods, s, max, n - 1);
        let x = s[n - 1];
        assert(s.take(n) =~= s.take(n - 1).push(x));
        if prev.1.len() > 0 && prev.2 + mods[x as int].size > max {
            prev.0.lemma_flatten_push(prev.1);
            assert(prev.0.push(prev.1).flatten() + seq![x] =~= prev.0.flatten() + prev.1 + seq![x]);
        } else {
            assert(prev.0.flatten() + prev.1.push(x) =~= prev.0.flatten() + prev.1 + seq![x]);
        }
    }
}

proof fn lemma_window_batches_flatten(mods: Seq<Module>, win: Seq<usize>, max: int)
    ensures
        window_batches(mods, win, max).flatten() == win,
{
    if double_weighted_size(mods, win) > 2 * max {
        lemma_walk_flatten(mods, win, max, win.len() as int);
        let w = size_split_walk(mods, win, max, win.len() as int);
        assert(win.take(win.len() as int) =~= win);
        if w.1.len() > 0 {
            w.0.lemma_flatten_push(w.1);
        } else {
            assert(w.0.flatten() + w.1 =~= w.0.flatten());
        }
    } else {
        seq![win].lemma_flatten_one_element();
    }
}

proof fn lemma_windows_flatten(s: Seq<usize>, w: nat)
    requires
        w > 0,
    ensures
        windows(s, w).flatten() == s,
    decreases s.len(),
{
    if s.len() == 0 {
        assert(windows(s, w).flatten() =~= s);
    } else if s.len() <= w {
        seq![s].lemma_flatten_one_element();
    } else {
        lemma_windows_flatten(s.skip(w as int), w);
        let ws = windows(s, w);
        assert(ws.drop_first() =~= windows(s.skip(w as int), w));
        assert(ws.first() == s.take(w as int));
        assert(s.take(w as int) + s.skip(w as int) =~= s);
    }
}

proof fn lemma_batches_of_windows_flatten(mods: Seq<Module>, ws: Seq<Seq<usize>>, max: int)
    ensures
        batches_of_windows(mods, ws, max).flatten() == ws.flatten(),
    decreases ws.len(),
{
    if ws.len() > 0 {
        lemma_batches_of_windows_flatten(mods, ws.drop_first(), max);
        lemma_window_batches_flatten(mods, ws[0], max);
        lemma_flatten_concat(window_batches(mods, ws[0], max), batches_of_windows(mods, ws.drop_first(), max));
    }
}

/// The batches, one after the other, are the ordered modules again: each
/// module lands in exactly one place.
pub proof fn lemma_plan_partitions(mods: Seq<Module>, order: Seq<usize>, max_modules: nat, max_size: int)
    requires
        max_modules > 0,
    ensures
        plan(mods, order, max_modules, max_size).flatten() == order,
{
    lemma_batches_of_windows_flatten(mods, windows(order, max_modules), max_size);
    lemma_windows_flatten(order, max_modules);
}

proof fn lemma_walk_nonempty(mods: Seq<Module>, s: Seq<usize>, max: int, n: int)
    requires
        0 <= n <= s.len(),
    ensures
        n > 0 ==> size_split_walk(mods, s, max, n).1.len() > 0,
        forall|k: int| 0 <= k < size_split_walk(mods, s, max, n).0.len()
            ==> (#[trigger] size_split_walk(mods, s, max, n).0[k]).len() > 0,
    decreases n,
{
    if n > 0 {
        lemma_walk_nonempty(mods, s, max, n - 1);
        let prev = size_split_walk(mods, s, max, n - 1);
        let cur = size_split_walk(mods, s, max, n);
        assert forall|k: int| 0 <= k < cur.0.len() implies (#[trigger] cur.0[k]).len() > 0 by {
            if k < prev.0.len() {
                assert(cur.0[k] == prev.0[k]);
            }
        }
    }
}

proof fn lemma_flatten_len(bs: Seq<Seq<usize>>)
    requires
        forall|k: int| 0 <= k < bs.len() ==> (#[trigger] bs[k]).len() > 0,
    ensures
        bs.len() <= bs.flatten().len(),
    decreases bs.len(),
{
    if bs.len() > 0 {
        let rest = bs.drop_first();
        assert forall|k: int| 0 <= k < rest.len() implies (#[trigger] rest[k]).len() > 0 by {
            assert(rest[k] == bs[k + 1]);
        }
        lemma_flatten_len(rest);
        assert(bs[0].len() > 0);
    }
}

proof fn lemma_batches_nonempty(mods: Seq<Module>, ws: Seq<Seq<usize>>, max: int)
    requires
        forall|k: int| 0 <= k < ws.len() ==> (#[trigger] ws[k]).len() > 0,
    ensures
        forall|k: int| 0 <= k < batches_of_windows(mods, ws, max).len()
            ==> (#[trigger] batches_of_windows(mods, ws, max)[k]).len() > 0,
    decreases ws.len(),
{
    if ws.len() > 0 {
        let rest = ws.drop_first();
        assert forall|k: int| 0 <= k < rest.len() implies (#[trigger] rest[k]).len() > 0 by {
            assert(rest[k] == ws[k + 1]);
        }
        lemma_batches_nonempty(mods, rest, max);
        let first = window_batches(mods, ws[0], max);
        lemma_walk_nonempty(mods, ws[0], max, ws[0].len() as int);
        let w = size_split_walk(mods, ws[0], max, ws[0].len() as int);
        assert forall|k: int| 0 <= k < first.len() implies (#[trigger] first[k]).len() > 0 by {
            if double_weighted_size(mods, ws[0]) > 2 * max {
                if k < w.0.len() {
                    assert(first[k] == w.0[k]);
                }
            }
        }
        let all = batches_of_windows(mods, ws, max);
        assert forall|k: int| 0 <= k < all.len() implies (#[trigger] all[k]).len() > 0 by {
            if k < first.len() {
                assert(all[k] == first[k]);
            } else {
                assert(all[k] == batches_of_windows(mods, rest, max)[k - first.len()]);
            }
        }
    }
}

/// There are no more batches than ordered modules, and no batch is empty.
pub proof fn lemma_plan_len(mods: Seq<Module>, order: Seq<usize>, max_modules: nat, max_size: int)
    requires
        max_modules > 0,
    ensures
        plan(mods, order, max_modules, max_size).len() <= order.len(),
        forall|k: int| 0 <= k < plan(mods, order, max_modules, max_size).len()
            ==> (#[trigger] plan(mods, order, max_modules, max_size)[k]).len() > 0,
{
    lemma_window_count_bound(order, max_modules);
    lemma_batches_nonempty(mods, windows(order, max_modules), max_size);
    lemma_flatten_len(plan(mods, order, max_modules, max_size));
    lemma_plan_partitions(mods, order, max_modules, max_size);
}

} // verus!
