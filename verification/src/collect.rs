//! Collecting units worth a given amount from a ledger.
use crate::bank::{
    BankManager, Entry, MyBank, StuffModel, StuffType, batch_of, contents, count_of,
    lemma_put_step, lemma_weigh_bounds, lemma_weigh_take_next, listing, put_each, weigh, worth_of,
};
use crate::error::ErrorKind;
use vstd::prelude::*;

verus! {

/// The quantity of a line.
pub open spec fn quantity() -> spec_fn(Entry) -> int {
    |p: Entry| p.1
}

/// `x` put into the lines `s`, which stand in descending order of face
/// value, behind every line of at least that face value.
pub open spec fn insert_by_value(s: Seq<Entry>, x: Entry) -> Seq<Entry>
    decreases s.len(),
{
    if s.len() == 0 {
        seq![x]
    } else if s.last().0.value() >= x.0.value() {
        s.push(x)
    } else {
        insert_by_value(s.drop_last(), x).push(s.last())
    }
}

/// The lines in descending order of face value; lines of equal face value
/// keep their order.
pub open spec fn by_value_desc(e: Seq<Entry>) -> Seq<Entry>
    decreases e.len(),
{
    if e.len() == 0 {
        Seq::empty()
    } else {
        insert_by_value(by_value_desc(e.drop_last()), e.last())
    }
}

/// The single units that the lines stand for, line after line.
pub open spec fn units(e: Seq<Entry>) -> Seq<StuffModel>
    decreases e.len(),
{
    if e.len() == 0 {
        Seq::empty()
    } else {
        units(e.drop_last()) + Seq::new(e.last().1 as nat, |i: int| e.last().0)
    }
}

/// The face values of the units.
pub open spec fn faces(u: Seq<StuffModel>) -> Seq<int> {
    u.map_values(|k: StuffModel| k.value())
}

/// The window that the scan ends on when it stands at the units from `lo`
/// up to `hi`, which are worth `sum`: it is the window in hand where `sum`
/// is the target; one unit is added behind where `sum` is less, and the
/// oldest unit is dropped where `sum` is more. The scan fails where there is
/// no unit left to add or to drop.
pub open spec fn scan(f: Seq<int>, target: int, lo: int, hi: int, sum: int) -> Option<(int, int)>
    decreases f.len() - lo + f.len() - hi,
{
    if sum == target {
        Some((lo, hi))
    } else if lo < 0 || hi < lo || hi > f.len() {
        None
    } else if sum < target {
        if hi >= f.len() {
            None
        } else {
            scan(f, target, lo, hi + 1, sum + f[hi])
        }
    } else {
        if lo >= hi {
            None
        } else {
            scan(f, target, lo + 1, hi, sum - f[lo])
        }
    }
}

/// Each unit as a batch item of quantity 1.
pub open spec fn singly(u: Seq<StuffModel>) -> Seq<Entry> {
    u.map_values(|k: StuffModel| (k, 1int))
}

/// What is collected from the lines `e` for the amount `target`: the units of
/// the window that the scan over the units in descending order of face value
/// ends on, put together by kind; nothing where the scan fails.
pub open spec fn collect_of(e: Seq<Entry>, target: int) -> Option<Seq<Entry>> {
    let u = units(by_value_desc(e));
    match scan(faces(u), target, 0, 0, 0) {
        Some((lo, hi)) => Some(put_each(Seq::empty(), singly(u.subrange(lo, hi)))),
        None => None,
    }
}

/// What the values from `lo` up to `hi` add up to.
pub open spec fn window_sum(f: Seq<int>, lo: int, hi: int) -> int
    decreases hi - lo,
{
    if hi <= lo {
        0
    } else {
        window_sum(f, lo, hi - 1) + f[hi - 1]
    }
}

/// A window is worth its first value and the rest.
pub proof fn lemma_window_front(f: Seq<int>, lo: int, hi: int)
    requires
        lo < hi,
    ensures
        window_sum(f, lo, hi) == f[lo] + window_sum(f, lo + 1, hi),
    decreases hi - lo,
{
    if hi - 1 > lo {
        lemma_window_front(f, lo, hi - 1);
    } else {
        assert(window_sum(f, lo, lo) == 0);
        assert(window_sum(f, lo + 1, hi) == 0);
    }
}

/// Of values that are not negative, a window within a window is worth no
/// more than it.
pub proof fn lemma_window_within(f: Seq<int>, a: int, b: int, lo: int, hi: int)
    requires
        0 <= lo <= a <= b <= hi <= f.len(),
        forall|i: int| 0 <= i < f.len() ==> #[trigger] f[i] >= 0,
    ensures
        0 <= window_sum(f, a, b) <= window_sum(f, lo, hi),
    decreases hi - lo,
{
    if hi > b {
        lemma_window_within(f, a, b, lo, hi - 1);
    } else if lo < a {
        lemma_window_within(f, a, b, lo + 1, hi);
        lemma_window_front(f, lo, hi);
    } else if a < b {
        lemma_window_within(f, a, b - 1, a, b - 1);
    }
}

/// The window that the scan ends on is worth the target.
pub proof fn law_scan_sound(f: Seq<int>, target: int, lo: int, hi: int, sum: int)
    requires
        0 <= lo <= hi <= f.len(),
        sum == window_sum(f, lo, hi),
        scan(f, target, lo, hi, sum) is Some,
    ensures
        lo <= scan(f, target, lo, hi, sum)->Some_0.0 <= scan(f, target, lo, hi, sum)->Some_0.1
            <= f.len(),
        window_sum(
            f,
            scan(f, target, lo, hi, sum)->Some_0.0,
            scan(f, target, lo, hi, sum)->Some_0.1,
        ) == target,
    decreases f.len() - lo + f.len() - hi,
{
    if sum != target {
        if sum < target {
            law_scan_sound(f, target, lo, hi + 1, sum + f[hi]);
        } else {
            lemma_window_front(f, lo, hi);
            law_scan_sound(f, target, lo + 1, hi, sum - f[lo]);
        }
    }
}

/// Of values that are not negative, the scan fails only where no window at
/// all is worth the target: it finds a run of neighbours that is worth the
/// target whenever there is one. Units that do not stand side by side it
/// does not try.
pub proof fn law_scan_complete(f: Seq<int>, target: int, lo: int, hi: int, sum: int)
    requires
        0 <= lo <= hi <= f.len(),
        sum == window_sum(f, lo, hi),
        forall|i: int| 0 <= i < f.len() ==> #[trigger] f[i] >= 0,
        forall|a: int, b: int|
            0 <= a <= b <= f.len() && #[trigger] window_sum(f, a, b) == target ==> lo <= a && hi
                <= b,
        scan(f, target, lo, hi, sum) is None,
    ensures
        forall|a: int, b: int| 0 <= a <= b <= f.len() ==> #[trigger] window_sum(f, a, b) != target,
    decreases f.len() - lo + f.len() - hi,
{
    if sum < target {
        if hi >= f.len() {
            assert forall|a: int, b: int| 0 <= a <= b <= f.len() implies #[trigger] window_sum(
                f,
                a,
                b,
            ) != target by {
                if window_sum(f, a, b) == target {
                    lemma_window_within(f, a, b, lo, hi);
                }
            }
        } else {
            assert forall|a: int, b: int|
                0 <= a <= b <= f.len() && #[trigger] window_sum(f, a, b) == target implies lo <= a
                && hi + 1 <= b by {
                if b == hi {
                    lemma_window_within(f, a, b, lo, hi);
                }
            }
            law_scan_complete(f, target, lo, hi + 1, sum + f[hi]);
        }
    } else {
        if lo >= hi {
            assert(window_sum(f, lo, hi) == 0);
            assert forall|a: int, b: int| 0 <= a <= b <= f.len() implies #[trigger] window_sum(
                f,
                a,
                b,
            ) != target by {
                lemma_window_within(f, a, b, a, b);
            }
        } else {
            lemma_window_front(f, lo, hi);
            assert forall|a: int, b: int|
                0 <= a <= b <= f.len() && #[trigger] window_sum(f, a, b) == target implies lo + 1
                <= a && hi <= b by {
                if a == lo {
                    lemma_window_within(f, lo, hi, a, b);
                }
            }
            law_scan_complete(f, target, lo + 1, hi, sum - f[lo]);
        }
    }
}

/// Of values that are not negative, the scan from the start ends on a
/// window exactly where some run of neighbours is worth the target.
pub proof fn law_scan_finds_runs(f: Seq<int>, target: int)
    requires
        forall|i: int| 0 <= i < f.len() ==> #[trigger] f[i] >= 0,
    ensures
        scan(f, target, 0, 0, 0) is Some <==> exists|a: int, b: int|
            0 <= a <= b <= f.len() && #[trigger] window_sum(f, a, b) == target,
{
    if scan(f, target, 0, 0, 0) is Some {
        law_scan_sound(f, target, 0, 0, 0);
        let found = scan(f, target, 0, 0, 0)->Some_0;
        assert(0 <= found.0 <= found.1 <= f.len() && window_sum(f, found.0, found.1) == target);
    } else {
        law_scan_complete(f, target, 0, 0, 0);
    }
}



/// A line goes to the place behind the last line of at least its face
/// value.
proof fn lemma_insert_by_value_at(s: Seq<Entry>, x: Entry, p: int)
    requires
        0 <= p <= s.len(),
        forall|j: int| p <= j < s.len() ==> (#[trigger] s[j]).0.value() < x.0.value(),
        p > 0 ==> s[p - 1].0.value() >= x.0.value(),
    ensures
        insert_by_value(s, x) == s.insert(p, x),
    decreases s.len(),
{
    if s.len() == 0 {
        assert(s.insert(p, x) =~= seq![x]);
    } else if p == s.len() {
        assert(s.insert(p, x) =~= s.push(x));
    } else {
        lemma_insert_by_value_at(s.drop_last(), x, p);
        assert(s.insert(p, x) =~= s.drop_last().insert(p, x).push(s.last()));
    }
}

/// There are as many units as the quantities say.
pub proof fn lemma_units_len(e: Seq<Entry>)
    requires
        forall|j: int| 0 <= j < e.len() ==> (#[trigger] e[j]).1 >= 0,
    ensures
        units(e).len() == weigh(e, quantity()),
    decreases e.len(),
{
    if e.len() > 0 {
        assert forall|j: int| 0 <= j < e.drop_last().len() implies (#[trigger] e.drop_last()[j]).1
            >= 0 by {
            assert(e.drop_last()[j] == e[j]);
        }
        lemma_units_len(e.drop_last());
        assert(e.last() == e[e.len() - 1]);
    }
}

/// The units of the `i`-th line stand behind those of the lines before it.
pub proof fn lemma_units_at(e: Seq<Entry>, i: int, a: int)
    requires
        forall|j: int| 0 <= j < e.len() ==> (#[trigger] e[j]).1 >= 0,
        0 <= i < e.len(),
        0 <= a < e[i].1,
    ensures
        0 <= weigh(e.take(i), quantity()) + a < units(e).len(),
        units(e)[weigh(e.take(i), quantity()) + a] == e[i].0,
    decreases e.len(),
{
    let d = e.drop_last();
    assert forall|j: int| 0 <= j < d.len() implies (#[trigger] d[j]).1 >= 0 by {
        assert(d[j] == e[j]);
    }
    assert forall|j: int| 0 <= j < e.len() implies quantity()(#[trigger] e[j]) >= 0 by {}
    lemma_units_len(d);
    lemma_weigh_bounds(e, i, quantity());
    if i == e.len() - 1 {
        assert(e.take(i) =~= d);
    } else {
        lemma_units_at(d, i, a);
        assert(d.take(i) =~= e.take(i));
    }
}

/// A place among the units: the `a`-th unit of the `i`-th line, or the end.
pub open spec fn place(e: Seq<Entry>, i: int, a: int) -> int {
    weigh(e.take(i), quantity()) + a
}

/// Whether `(i, a)` names a unit of the lines, or their end.
pub open spec fn placed(e: Seq<Entry>, i: int, a: int) -> bool {
    &&& 0 <= i <= e.len()
    &&& i < e.len() ==> 0 <= a < e[i].1
    &&& i == e.len() ==> a == 0
}

/// Where a place stands among the units, and what follows it.
proof fn lemma_place(e: Seq<Entry>, i: int, a: int)
    requires
        forall|j: int| 0 <= j < e.len() ==> (#[trigger] e[j]).1 > 0,
        placed(e, i, a),
    ensures
        0 <= place(e, i, a) <= units(e).len(),
        i < e.len() <==> place(e, i, a) < units(e).len(),
        i < e.len() ==> units(e)[place(e, i, a)] == e[i].0,
        i < e.len() && a + 1 < e[i].1 ==> place(e, i, a + 1) == place(e, i, a) + 1,
        i < e.len() && a + 1 == e[i].1 ==> place(e, i + 1, 0) == place(e, i, a) + 1,
{
    assert forall|j: int| 0 <= j < e.len() implies quantity()(#[trigger] e[j]) >= 0 by {}
    lemma_units_len(e);
    lemma_weigh_bounds(e, i, quantity());
    if i < e.len() {
        lemma_units_at(e, i, a);
        lemma_weigh_take_next(e, i, quantity());
    } else {
        assert(e.take(i) =~= e);
    }
}

/// How often `k` stands among the units.
pub open spec fn occ(s: Seq<StuffModel>, k: StuffModel) -> int
    decreases s.len(),
{
    if s.len() == 0 {
        0
    } else {
        occ(s.drop_last(), k) + if s.last() == k {
            1int
        } else {
            0
        }
    }
}

/// What the units are worth together.
pub open spec fn faces_sum(s: Seq<StuffModel>) -> int
    decreases s.len(),
{
    if s.len() == 0 {
        0
    } else {
        faces_sum(s.drop_last()) + s.last().value()
    }
}

/// A kind stands in two runs of units as often as in both together.
proof fn lemma_occ_concat(a: Seq<StuffModel>, b: Seq<StuffModel>, k: StuffModel)
    ensures
        occ(a + b, k) == occ(a, k) + occ(b, k),
        occ(b, k) >= 0,
    decreases b.len(),
{
    if b.len() == 0 {
        assert(a + b =~= a);
    } else {
        lemma_occ_concat(a, b.drop_last(), k);
        assert((a + b).drop_last() =~= a + b.drop_last());
        assert((a + b).last() == b.last());
    }
}

/// A kind stands in a run of equal units as often as the run is long, or
/// not at all.
proof fn lemma_occ_block(x: StuffModel, n: nat, k: StuffModel)
    ensures
        occ(Seq::new(n, |i: int| x), k) == if x == k {
            n as int
        } else {
            0
        },
    decreases n,
{
    if n > 0 {
        lemma_occ_block(x, (n - 1) as nat, k);
        assert(Seq::new(n, |i: int| x).drop_last() =~= Seq::new((n - 1) as nat, |i: int| x));
    }
}

/// A kind stands among the units as often as the lines hold it.
proof fn lemma_units_occ(e: Seq<Entry>, k: StuffModel)
    requires
        forall|j: int| 0 <= j < e.len() ==> (#[trigger] e[j]).1 >= 0,
    ensures
        occ(units(e), k) == count_of(e, k),
    decreases e.len(),
{
    if e.len() > 0 {
        assert forall|j: int| 0 <= j < e.drop_last().len() implies (#[trigger] e.drop_last()[j]).1
            >= 0 by {
            assert(e.drop_last()[j] == e[j]);
        }
        lemma_units_occ(e.drop_last(), k);
        assert(e.last() == e[e.len() - 1]);
        lemma_occ_block(e.last().0, e.last().1 as nat, k);
        lemma_occ_concat(units(e.drop_last()), Seq::new(e.last().1 as nat, |i: int| e.last().0), k);
    }
}

/// A kind stands in a part of the units no more often than in all of them.
proof fn lemma_occ_part(u: Seq<StuffModel>, lo: int, hi: int, k: StuffModel)
    requires
        0 <= lo <= hi <= u.len(),
    ensures
        0 <= occ(u.subrange(lo, hi), k) <= occ(u, k),
{
    let a = u.subrange(0, lo);
    let b = u.subrange(lo, hi);
    let c = u.subrange(hi, u.len() as int);
    assert(u =~= (a + b) + c);
    lemma_occ_concat(a + b, c, k);
    lemma_occ_concat(a, b, k);
    lemma_occ_concat(Seq::empty(), a, k);
}

/// A part of the units is worth what its face values add up to.
proof fn lemma_faces_window(u: Seq<StuffModel>, lo: int, hi: int)
    requires
        0 <= lo <= hi <= u.len(),
    ensures
        faces_sum(u.subrange(lo, hi)) == window_sum(faces(u), lo, hi),
    decreases hi - lo,
{
    if hi > lo {
        lemma_faces_window(u, lo, hi - 1);
        assert(u.subrange(lo, hi).drop_last() =~= u.subrange(lo, hi - 1));
        assert(u.subrange(lo, hi).last() == u[hi - 1]);
    }
}

/// Putting a line into its place changes a sum over the lines by the line.
proof fn lemma_weigh_insert(s: Seq<Entry>, x: Entry, f: spec_fn(Entry) -> int)
    ensures
        weigh(insert_by_value(s, x), f) == weigh(s, f) + f(x),
        insert_by_value(s, x).len() == s.len() + 1,
    decreases s.len(),
{
    if s.len() == 0 {
        assert(seq![x].drop_last() =~= Seq::<Entry>::empty());
        assert(weigh(Seq::<Entry>::empty(), f) == 0);
    } else if s.last().0.value() >= x.0.value() {
        crate::bank::lemma_weigh_push(s, x, f);
    } else {
        lemma_weigh_insert(s.drop_last(), x, f);
        crate::bank::lemma_weigh_push(insert_by_value(s.drop_last(), x), s.last(), f);
    }
}

/// The lines in descending order of face value add up to what the lines add
/// up to.
proof fn lemma_weigh_sorted(e: Seq<Entry>, f: spec_fn(Entry) -> int)
    ensures
        weigh(by_value_desc(e), f) == weigh(e, f),
        by_value_desc(e).len() == e.len(),
    decreases e.len(),
{
    if e.len() > 0 {
        lemma_weigh_sorted(e.drop_last(), f);
        lemma_weigh_insert(by_value_desc(e.drop_last()), e.last(), f);
    }
}

/// Whether a line holds a positive quantity of stuff whose face value is
/// not negative.
pub open spec fn plain(p: Entry) -> bool {
    p.1 > 0 && p.0.value() >= 0
}

/// Plain lines with one more plain line are plain lines.
proof fn lemma_insert_plain(s: Seq<Entry>, x: Entry)
    requires
        forall|j: int| 0 <= j < s.len() ==> plain(#[trigger] s[j]),
        plain(x),
    ensures
        forall|j: int|
            0 <= j < insert_by_value(s, x).len() ==> plain(#[trigger] insert_by_value(s, x)[j]),
    decreases s.len(),
{
    let out = insert_by_value(s, x);
    if s.len() == 0 {
        assert(out[0] == x);
    } else if s.last().0.value() >= x.0.value() {
        assert forall|j: int| 0 <= j < out.len() implies plain(#[trigger] out[j]) by {
            if j < s.len() {
                assert(out[j] == s[j]);
            }
        }
    } else {
        assert forall|j: int| 0 <= j < s.drop_last().len() implies plain(
            #[trigger] s.drop_last()[j],
        ) by {
            assert(s.drop_last()[j] == s[j]);
        }
        lemma_insert_plain(s.drop_last(), x);
        assert(plain(s[s.len() - 1]));
        let inner = insert_by_value(s.drop_last(), x);
        assert forall|j: int| 0 <= j < out.len() implies plain(#[trigger] out[j]) by {
            if j < inner.len() {
                assert(out[j] == inner[j]);
            }
        }
    }
}

/// Plain lines in descending order of face value are plain lines.
proof fn lemma_sorted_plain(e: Seq<Entry>)
    requires
        forall|j: int| 0 <= j < e.len() ==> plain(#[trigger] e[j]),
    ensures
        forall|j: int| 0 <= j < by_value_desc(e).len() ==> plain(#[trigger] by_value_desc(e)[j]),
    decreases e.len(),
{
    if e.len() > 0 {
        assert forall|j: int| 0 <= j < e.drop_last().len() implies plain(
            #[trigger] e.drop_last()[j],
        ) by {
            assert(e.drop_last()[j] == e[j]);
        }
        lemma_sorted_plain(e.drop_last());
        assert(plain(e[e.len() - 1]));
        lemma_insert_plain(by_value_desc(e.drop_last()), e.last());
    }
}

/// The units of plain lines have face values that are not negative.
proof fn lemma_units_plain(e: Seq<Entry>)
    requires
        forall|j: int| 0 <= j < e.len() ==> plain(#[trigger] e[j]),
    ensures
        forall|j: int| 0 <= j < units(e).len() ==> (#[trigger] units(e)[j]).value() >= 0,
    decreases e.len(),
{
    if e.len() > 0 {
        assert forall|j: int| 0 <= j < e.drop_last().len() implies plain(
            #[trigger] e.drop_last()[j],
        ) by {
            assert(e.drop_last()[j] == e[j]);
        }
        lemma_units_plain(e.drop_last());
        assert(plain(e[e.len() - 1]));
        let head = units(e.drop_last());
        assert forall|j: int| 0 <= j < units(e).len() implies (#[trigger] units(e)[j]).value()
            >= 0 by {
            if j < head.len() {
                assert(units(e)[j] == head[j]);
            } else {
                assert(units(e)[j] == e.last().0);
            }
        }
    }
}

/// Units of which no kind stands too often, and which are worth together
/// what a ledger can hold, are all put into an empty ledger, which then
/// holds each kind as often as it stands among them.
proof fn lemma_picked(w: Seq<StuffModel>, t: int)
    requires
        0 <= t <= w.len(),
        forall|j: int| 0 <= j < w.len() ==> (#[trigger] w[j]).value() >= 0,
        forall|k: StuffModel| #[trigger] occ(w, k) <= i32::MAX,
        faces_sum(w) <= i32::MAX,
    ensures
        crate::bank::put_faults(Seq::empty(), singly(w).take(t)).len() == 0,
        crate::bank::tidy(put_each(Seq::empty(), singly(w).take(t))),
        worth_of(put_each(Seq::empty(), singly(w).take(t))) == faces_sum(w.take(t)),
        forall|k: StuffModel| #[trigger]
            count_of(put_each(Seq::empty(), singly(w).take(t)), k) == occ(w.take(t), k),
    decreases t,
{
    let none = Seq::<Entry>::empty();
    let items = singly(w);
    if t == 0 {
        assert(items.take(0) =~= none);
        assert(w.take(0) =~= Seq::<StuffModel>::empty());
        assert(worth_of(none) == 0);
        assert forall|k: StuffModel| #[trigger] count_of(none, k) == occ(w.take(0), k) by {
            assert(count_of(none, k) == 0);
        }
    } else {
        lemma_picked(w, t - 1);
        lemma_put_step(none, items, t - 1);
        let before = put_each(none, items.take(t - 1));
        let k = w[t - 1];
        assert(items[t - 1] == (k, 1int));
        assert(w.take(t).drop_last() =~= w.take(t - 1));
        assert(w.take(t).last() == k);
        assert(w.take(t) =~= w.subrange(0, t));
        lemma_occ_part(w, 0, t, k);
        lemma_faces_window(w, 0, t);
        lemma_faces_window(w, 0, w.len() as int);
        assert(w.subrange(0, w.len() as int) =~= w);
        assert forall|i: int| 0 <= i < faces(w).len() implies #[trigger] faces(w)[i] >= 0 by {
            assert(faces(w)[i] == w[i].value());
        }
        lemma_window_within(faces(w), 0, t, 0, w.len() as int);
        assert(k.value() * 1 == k.value());
        assert(crate::bank::put_ok(contents(before), k, 1));
        crate::bank::lemma_put_entry(before, k, 1);
        assert forall|k2: StuffModel| #[trigger]
            count_of(put_each(none, items.take(t)), k2) == occ(w.take(t), k2) by {
            assert(contents(crate::bank::put_entry(before, k, 1)).counts[k2]
                == crate::bank::put_one(contents(before), k, 1).counts[k2]);
            assert(count_of(before, k2) == occ(w.take(t - 1), k2));
        }
    }
}

/// What is collected from a ledger is held by it and is worth the amount
/// asked for.
pub proof fn law_collect_sound(e: Seq<Entry>, target: int)
    requires
        crate::bank::tidy(e),
        collect_of(e, target) is Some,
    ensures
        crate::bank::tidy(collect_of(e, target)->Some_0),
        worth_of(collect_of(e, target)->Some_0) == target,
        forall|k: StuffModel| #[trigger]
            count_of(collect_of(e, target)->Some_0, k) <= count_of(e, k),
{
    let sorted = by_value_desc(e);
    let u = units(sorted);
    let f = faces(u);
    assert forall|j: int| 0 <= j < e.len() implies plain(#[trigger] e[j]) by {}
    lemma_sorted_plain(e);
    lemma_units_plain(sorted);
    crate::bank::lemma_count_nonneg(e, StuffModel::Denomination(Seq::empty(), 0));
    if scan(f, target, 0, 0, 0) is Some {
        law_scan_sound(f, target, 0, 0, 0);
        let (lo, hi) = scan(f, target, 0, 0, 0)->Some_0;
        let w = u.subrange(lo, hi);
        lemma_faces_window(u, lo, hi);
        assert forall|j: int| 0 <= j < f.len() implies #[trigger] f[j] >= 0 by {
            assert(f[j] == u[j].value());
        }
        lemma_window_within(f, lo, hi, 0, u.len() as int);
        lemma_faces_window(u, 0, u.len() as int);
        assert(u.subrange(0, u.len() as int) =~= u);
        assert forall|j: int| 0 <= j < sorted.len() implies (#[trigger] sorted[j]).1 >= 0 by {
            assert(plain(sorted[j]));
        }
        lemma_faces_units(sorted);
        lemma_weigh_sorted(e, crate::bank::price());
        assert forall|k: StuffModel| #[trigger] occ(w, k) <= count_of(e, k) by {
            lemma_occ_part(u, lo, hi, k);
            lemma_units_occ(sorted, k);
            lemma_weigh_sorted(e, crate::bank::tally(k));
        }
        assert forall|k: StuffModel| #[trigger] occ(w, k) <= i32::MAX by {
            assert(occ(w, k) <= count_of(e, k));
            crate::bank::lemma_count_nonneg(e, k);
        }
        lemma_picked(w, w.len() as int);
        assert(singly(w).take(w.len() as int) =~= singly(w));
        assert(w.take(w.len() as int) =~= w);
    }
}

/// The units that lines stand for are worth what the lines are worth.
proof fn lemma_faces_units(e: Seq<Entry>)
    requires
        forall|j: int| 0 <= j < e.len() ==> (#[trigger] e[j]).1 >= 0,
    ensures
        faces_sum(units(e)) == worth_of(e),
    decreases e.len(),
{
    if e.len() > 0 {
        assert forall|j: int| 0 <= j < e.drop_last().len() implies (#[trigger] e.drop_last()[j]).1
            >= 0 by {
            assert(e.drop_last()[j] == e[j]);
        }
        lemma_faces_units(e.drop_last());
        assert(e.last() == e[e.len() - 1]);
        lemma_faces_block(units(e.drop_last()), e.last().0, e.last().1 as nat);
    }
}

/// A run of equal units adds its face value as often as it is long.
proof fn lemma_faces_block(a: Seq<StuffModel>, x: StuffModel, n: nat)
    ensures
        faces_sum(a + Seq::new(n, |i: int| x)) == faces_sum(a) + x.value() * n,
    decreases n,
{
    if n == 0 {
        assert(a + Seq::new(n, |i: int| x) =~= a);
        assert(x.value() * 0 == 0);
    } else {
        lemma_faces_block(a, x, (n - 1) as nat);
        assert((a + Seq::new(n, |i: int| x)).drop_last() =~= a + Seq::new(
            (n - 1) as nat,
            |i: int| x,
        ));
        assert(x.value() * n == x.value() * (n - 1) + x.value()) by (nonlinear_arith);
    }
}

impl MyBank {
    /// The lines of the ledger in descending order of face value.
    fn ranked(&self) -> (r: Vec<(StuffType, i32)>)
        ensures
            listing(r@) == by_value_desc(self.entries()),
            forall|j: int| 0 <= j < r@.len() ==> (#[trigger] r@[j]).1 > 0 && r@[j].0@.value() >= 0,
    {
        let lines = self.get_basket_vec();
        let ghost e = self.entries();
        let mut out: Vec<(StuffType, i32)> = Vec::new();
        let mut i: usize = 0;
        assert(listing(out@) =~= by_value_desc(e.take(0)));
        while i < lines.len()
            invariant
                0 <= i <= lines.len(),
                batch_of(lines@) == e,
                crate::bank::tidy(e),
                listing(out@) == by_value_desc(e.take(i as int)),
                forall|j: int|
                    0 <= j < out@.len() ==> (#[trigger] out@[j]).1 > 0 && out@[j].0@.value() >= 0,
            decreases lines.len() - i,
        {
            let (k, n) = lines[i];
            let v = k.get_value();
            let mut p: usize = out.len();
            while p > 0 && out[p - 1].0.get_value() < v
                invariant
                    0 <= p <= out.len(),
                    forall|j: int|
                        p <= j < out.len() ==> (#[trigger] listing(out@)[j]).0.value() < v,
                decreases p,
            {
                p = p - 1;
            }
            proof {
                assert(e[i as int] == (k@, n as int));
                assert(p > 0 ==> listing(out@)[p - 1].0.value() >= v);
                lemma_insert_by_value_at(listing(out@), (k@, n as int), p as int);
                assert(e.take(i + 1).drop_last() =~= e.take(i as int));
                assert(e.take(i + 1).last() == e[i as int]);
            }
            let ghost before = out@;
            out.insert(p, (*k, n));
            assert(listing(out@) =~= listing(before).insert(p as int, (k@, n as int)));
            i = i + 1;
        }
        assert(e.take(lines.len() as int) =~= e);
        out
    }

    /// Picks held units that are worth `value` together, and says how many
    /// of each kind; the ledger itself is not changed. The units are laid
    /// out in descending order of face value and scanned once with a window:
    /// the window grows at its end while it is worth too little and loses
    /// its oldest unit while it is worth too much. It is refused with
    /// `CannotCollect` where the scan ends without a window worth `value`,
    /// which can happen though other units would do.
    pub fn collect_stuff(&self, value: i32) -> (r: Result<Vec<(StuffType, i32)>, ErrorKind>)
        ensures
            match collect_of(self.entries(), value as int) {
                Some(picked) => r is Ok && listing(r->Ok_0@) == picked,
                None => r == Err::<Vec<(StuffType, i32)>, ErrorKind>(ErrorKind::CannotCollect),
            },
    {
        let sorted = self.ranked();
        let ghost e = listing(sorted@);
        let ghost u = units(e);
        let ghost f = faces(u);
        let mut lo_i: usize = 0;
        let mut lo_a: i32 = 0;
        let mut hi_i: usize = 0;
        let mut hi_a: i32 = 0;
        let mut sum: i64 = 0;
        let ghost mut lo: int = 0;
        let ghost mut hi: int = 0;
        let mut found = false;
        proof {
            assert(e.take(0) =~= Seq::<Entry>::empty());
            assert forall|j: int| 0 <= j < e.len() implies (#[trigger] e[j]).1 > 0 by {
                assert(e[j].1 == sorted@[j].1);
            }
            lemma_place(e, 0, 0);
        }
        loop
            invariant_except_break
                !found,
            invariant
                e == listing(sorted@),
                u == units(e),
                f == faces(u),
                forall|j: int| 0 <= j < e.len() ==> (#[trigger] e[j]).1 > 0,
                forall|j: int| 0 <= j < sorted@.len() ==> (#[trigger] sorted@[j]).0@.value() >= 0,
                placed(e, lo_i as int, lo_a as int),
                placed(e, hi_i as int, hi_a as int),
                lo == place(e, lo_i as int, lo_a as int),
                hi == place(e, hi_i as int, hi_a as int),
                0 <= lo <= hi <= u.len(),
                -0x1_0000_0000 <= sum <= 0x1_0000_0000,
                scan(f, value as int, lo, hi, sum as int) == scan(f, value as int, 0, 0, 0),
            ensures
                found ==> scan(f, value as int, 0, 0, 0) == Some((lo, hi)),
                !found ==> scan(f, value as int, 0, 0, 0) is None,
            decreases u.len() - lo + u.len() - hi,
        {
            proof {
                lemma_place(e, lo_i as int, lo_a as int);
                lemma_place(e, hi_i as int, hi_a as int);
            }
            if sum == value as i64 {
                found = true;
                break;
            } else if sum < value as i64 {
                if hi_i >= sorted.len() {
                    break;
                }
                let v = sorted[hi_i].0.get_value();
                assert(f[hi] == v);
                sum = sum + v as i64;
                if hi_a + 1 < sorted[hi_i].1 {
                    hi_a = hi_a + 1;
                } else {
                    hi_i = hi_i + 1;
                    hi_a = 0;
                }
                proof {
                    hi = hi + 1;
                }
            } else {
                if lo_i == hi_i && lo_a == hi_a {
                    break;
                }
                assert(lo < hi) by {
                    if lo >= hi {
                        lemma_place_one(e, lo_i as int, lo_a as int, hi_i as int, hi_a as int);
                    }
                }
                let v = sorted[lo_i].0.get_value();
                assert(f[lo] == v);
                sum = sum - v as i64;
                if lo_a + 1 < sorted[lo_i].1 {
                    lo_a = lo_a + 1;
                } else {
                    lo_i = lo_i + 1;
                    lo_a = 0;
                }
                proof {
                    lo = lo + 1;
                }
            }
        }
        if !found {
            return Err(ErrorKind::CannotCollect);
        }
        let ghost items = singly(u.subrange(lo, hi));
        let mut picked = MyBank::new();
        let ghost mut p: int = lo;
        assert(items.take(0) =~= Seq::<Entry>::empty());
        while !(lo_i == hi_i && lo_a == hi_a)
            invariant
                e == listing(sorted@),
                u == units(e),
                forall|j: int| 0 <= j < e.len() ==> (#[trigger] e[j]).1 > 0,
                placed(e, lo_i as int, lo_a as int),
                placed(e, hi_i as int, hi_a as int),
                p == place(e, lo_i as int, lo_a as int),
                hi == place(e, hi_i as int, hi_a as int),
                0 <= lo <= p <= hi <= u.len(),
                items == singly(u.subrange(lo, hi)),
                picked.entries() == put_each(Seq::empty(), items.take(p - lo)),
            decreases hi - p,
        {
            proof {
                lemma_place(e, lo_i as int, lo_a as int);
                lemma_place(e, hi_i as int, hi_a as int);
                if p >= hi {
                    lemma_place_one(e, lo_i as int, lo_a as int, hi_i as int, hi_a as int);
                }
                lemma_put_step(Seq::empty(), items, p - lo);
                assert(items[p - lo] == (u[p], 1int));
            }
            let unit = &sorted[lo_i].0;
            let put = picked.stuff_in(unit, 1);
            if lo_a + 1 < sorted[lo_i].1 {
                lo_a = lo_a + 1;
            } else {
                lo_i = lo_i + 1;
                lo_a = 0;
            }
            proof {
                p = p + 1;
            }
        }
        proof {
            lemma_place(e, lo_i as int, lo_a as int);
            assert(items.take(hi - lo) =~= items);
        }
        let lines = picked.get_basket_vec();
        let mut out: Vec<(StuffType, i32)> = Vec::new();
        let mut i: usize = 0;
        while i < lines.len()
            invariant
                0 <= i <= lines.len(),
                listing(out@) == batch_of(lines@).take(i as int),
            decreases lines.len() - i,
        {
            let (k, n) = lines[i];
            let ghost before = out@;
            out.push((*k, n));
            assert(out@.drop_last() =~= before);
            assert(listing(out@) =~= listing(before).push((k@, n as int)));
            assert(batch_of(lines@).take(i + 1) =~= batch_of(lines@).take(i as int).push(
                batch_of(lines@)[i as int],
            ));
            i = i + 1;
        }
        assert(batch_of(lines@).take(lines.len() as int) =~= batch_of(lines@));
        Ok(out)
    }
}

/// Two names of one place are one name.
proof fn lemma_place_one(e: Seq<Entry>, i: int, a: int, j: int, b: int)
    requires
        forall|m: int| 0 <= m < e.len() ==> (#[trigger] e[m]).1 > 0,
        placed(e, i, a),
        placed(e, j, b),
        place(e, i, a) >= place(e, j, b),
        place(e, i, a) <= place(e, j, b),
    ensures
        i == j && a == b,
{
    assert forall|m: int| 0 <= m < e.len() implies quantity()(#[trigger] e[m]) >= 0 by {}
    if i < j {
        lemma_place_order(e, i, j);
        lemma_weigh_take_next(e, i, quantity());
    } else if j < i {
        lemma_place_order(e, j, i);
        lemma_weigh_take_next(e, j, quantity());
    }
}

/// The units of an earlier line stand before those of a later line.
proof fn lemma_place_order(e: Seq<Entry>, i: int, j: int)
    requires
        forall|m: int| 0 <= m < e.len() ==> (#[trigger] e[m]).1 > 0,
        0 <= i < j <= e.len(),
    ensures
        weigh(e.take(i + 1), quantity()) <= weigh(e.take(j), quantity()),
{
    let t = e.take(j);
    assert forall|m: int| 0 <= m < t.len() implies quantity()(#[trigger] t[m]) >= 0 by {
        assert(t[m] == e[m]);
    }
    lemma_weigh_bounds(t, i + 1, quantity());
    assert(t.take(i + 1) =~= e.take(i + 1));
    assert(t.take(j) =~= t);
}

} // verus!
