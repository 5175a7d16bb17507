//! The ledger: how many units of each kind of stuff one owner holds, and how
//! stuff is put in, taken out and moved between ledgers, singly or in batches.
use crate::card::Card;
use crate::error::ErrorKind;
use crate::random::RandomSource;
use vstd::prelude::*;
use vstd::std_specs::cmp::PartialEqSpecImpl;
use vstd::string::StringSliceAdditionalSpecFns;

verus! {

/// Anything that a ledger can hold: a named denomination with its face value,
/// or a playing card.
#[derive(Clone, Copy, Debug)]
pub enum StuffType {
    GeneralType(&'static str, i32),
    CardType(Card),
}

/// What a piece of stuff is, as a mathematical value: a denomination is its
/// label and face value, a card is itself.
pub enum StuffModel {
    Denomination(Seq<char>, int),
    Card(Card),
}

impl StuffModel {
    /// The face value: that of the denomination, and 0 for a card.
    pub open spec fn value(self) -> int {
        match self {
            StuffModel::Denomination(_, v) => v,
            StuffModel::Card(_) => 0,
        }
    }
}

impl View for StuffType {
    type V = StuffModel;

    open spec fn view(&self) -> StuffModel {
        match self {
            StuffType::GeneralType(label, value) => StuffModel::Denomination(label@, *value as int),
            StuffType::CardType(card) => StuffModel::Card(*card),
        }
    }
}

/// Whether two strings hold the same characters.
pub fn same_text(a: &str, b: &str) -> (r: bool)
    ensures
        r == (a@ == b@),
{
    let x = a.as_bytes();
    let y = b.as_bytes();
    if x.len() != y.len() {
        return false;
    }
    let mut i: usize = 0;
    while i < x.len()
        invariant
            0 <= i <= x.len(),
            x.len() == y.len(),
            forall|j: int| 0 <= j < i ==> x@[j] == y@[j],
            x@ == a.spec_bytes(),
            y@ == b.spec_bytes(),
        decreases x.len() - i,
    {
        if x[i] != y[i] {
            return false;
        }
        i = i + 1;
    }
    proof {
        assert(x@ =~= y@);
        vstd::utf8::encode_utf8_decode_utf8(a@);
        vstd::utf8::encode_utf8_decode_utf8(b@);
    }
    true
}

impl StuffType {
    /// The face value: that of the denomination, and 0 for a card.
    pub fn get_value(&self) -> (v: i32)
        ensures
            v == self@.value(),
    {
        match self {
            StuffType::GeneralType(_, value) => *value,
            StuffType::CardType(_) => 0,
        }
    }
}

impl PartialEq for StuffType {
    /// Two pieces of stuff are equal where they are of one kind: the same
    /// label and face value, or the same card.
    fn eq(&self, other: &StuffType) -> (r: bool) {
        match (self, other) {
            (StuffType::GeneralType(a, v), StuffType::GeneralType(b, w)) => *v == *w && same_text(
                a,
                b,
            ),
            (StuffType::CardType(c), StuffType::CardType(d)) => *c == *d,
            _ => false,
        }
    }
}

impl PartialEqSpecImpl for StuffType {
    open spec fn obeys_eq_spec() -> bool {
        true
    }

    open spec fn eq_spec(&self, other: &StuffType) -> bool {
        self@ == other@
    }
}

/// One line of a ledger: a kind of stuff and how many units of it.
pub type Entry = (StuffModel, int);

/// What a list of (stuff, quantity) pairs says, as mathematical values.
pub open spec fn listing(v: Seq<(StuffType, i32)>) -> Seq<Entry> {
    v.map_values(|p: (StuffType, i32)| (p.0@, p.1 as int))
}

/// The quantity of a line if it is of kind `k`, else 0.
pub open spec fn tally(k: StuffModel) -> spec_fn(Entry) -> int {
    |p: Entry| if p.0 == k { p.1 } else { 0 }
}

/// The worth of a line: face value times quantity.
pub open spec fn price() -> spec_fn(Entry) -> int {
    |p: Entry| p.0.value() * p.1
}

/// The sum of `f` over the lines of `e`.
pub open spec fn weigh(e: Seq<Entry>, f: spec_fn(Entry) -> int) -> int
    decreases e.len(),
{
    if e.len() == 0 {
        0
    } else {
        weigh(e.drop_last(), f) + f(e.last())
    }
}

/// How many units of kind `k` the lines hold.
pub open spec fn count_of(e: Seq<Entry>, k: StuffModel) -> int {
    weigh(e, tally(k))
}

/// The valuation of the lines: the sum of face value times quantity.
pub open spec fn worth_of(e: Seq<Entry>) -> int {
    weigh(e, price())
}

/// Whether the lines are those of a ledger: every quantity is positive and
/// fits 32 bits, no face value is negative, no kind stands twice, and the
/// valuation fits 32 bits.
pub open spec fn tidy(e: Seq<Entry>) -> bool {
    &&& forall|i: int|
        0 <= i < e.len() ==> 0 < (#[trigger] e[i]).1 <= i32::MAX && 0 <= e[i].0.value() <= i32::MAX
    &&& forall|i: int, j: int| 0 <= i < j < e.len() ==> (#[trigger] e[i]).0 != (#[trigger] e[j]).0
    &&& worth_of(e) <= i32::MAX
}

/// Whether some line is of kind `k`.
pub open spec fn holds(e: Seq<Entry>, k: StuffModel) -> bool {
    exists|i: int| 0 <= i < e.len() && (#[trigger] e[i]).0 == k
}

/// The place of the line of kind `k`.
pub open spec fn slot(e: Seq<Entry>, k: StuffModel) -> int {
    choose|i: int| 0 <= i < e.len() && (#[trigger] e[i]).0 == k
}

/// The contents of a ledger without the order of its lines: how many units of
/// each kind it holds (0 of a kind that it lacks) and what they are worth.
pub struct Holdings {
    pub counts: Map<StuffModel, int>,
    pub worth: int,
}

/// The contents that the lines `e` stand for.
pub open spec fn contents(e: Seq<Entry>) -> Holdings {
    Holdings { counts: Map::total(|k: StuffModel| count_of(e, k)), worth: worth_of(e) }
}

/// Whether `n` units of `k` can be put into a ledger with contents `h`: `n`
/// is 0, or `n` is positive, the face value is not negative, and the new
/// quantity and the new valuation both fit 32 bits.
pub open spec fn put_ok(h: Holdings, k: StuffModel, n: int) -> bool {
    n == 0 || (n > 0 && k.value() >= 0 && h.counts[k] + n <= i32::MAX && h.worth + k.value() * n
        <= i32::MAX)
}

/// The contents after `n` units of `k` were put in.
pub open spec fn put_one(h: Holdings, k: StuffModel, n: int) -> Holdings {
    Holdings { counts: h.counts.insert(k, h.counts[k] + n), worth: h.worth + k.value() * n }
}

/// Why `n` units of `k` cannot be taken from a ledger with contents `h`, if
/// they cannot.
pub open spec fn take_fault(h: Holdings, k: StuffModel, n: int) -> Option<ErrorKind> {
    if n < 0 {
        Some(ErrorKind::InvalidQuantity)
    } else if h.counts[k] < n {
        Some(ErrorKind::InsufficientStuff)
    } else {
        None
    }
}

/// The contents after `n` units of `k` were taken out.
pub open spec fn take_one(h: Holdings, k: StuffModel, n: int) -> Holdings {
    Holdings { counts: h.counts.insert(k, h.counts[k] - n), worth: h.worth - k.value() * n }
}

/// The lines after `n` units of `k` were put in: the line of `k` grows, or a
/// new last line is added.
pub open spec fn put_entry(e: Seq<Entry>, k: StuffModel, n: int) -> Seq<Entry> {
    if n == 0 {
        e
    } else if holds(e, k) {
        e.update(slot(e, k), (k, e[slot(e, k)].1 + n))
    } else {
        e.push((k, n))
    }
}

/// The lines after `n` units of `k` were taken out: the line of `k` shrinks,
/// or leaves when nothing remains of it.
pub open spec fn take_entry(e: Seq<Entry>, k: StuffModel, n: int) -> Seq<Entry> {
    if n == 0 {
        e
    } else if e[slot(e, k)].1 == n {
        e.remove(slot(e, k))
    } else {
        e.update(slot(e, k), (k, e[slot(e, k)].1 - n))
    }
}

/// A sum over lines with one more line is the sum and what the line adds.
pub proof fn lemma_weigh_push(e: Seq<Entry>, x: Entry, f: spec_fn(Entry) -> int)
    ensures
        weigh(e.push(x), f) == weigh(e, f) + f(x),
{
    assert(e.push(x).drop_last() =~= e);
}

/// A sum over lines of which one is replaced changes by the difference of
/// the two lines.
pub proof fn lemma_weigh_update(e: Seq<Entry>, i: int, x: Entry, f: spec_fn(Entry) -> int)
    requires
        0 <= i < e.len(),
    ensures
        weigh(e.update(i, x), f) == weigh(e, f) - f(e[i]) + f(x),
    decreases e.len(),
{
    if i == e.len() - 1 {
        assert(e.update(i, x).drop_last() =~= e.drop_last());
    } else {
        lemma_weigh_update(e.drop_last(), i, x, f);
        assert(e.update(i, x).drop_last() =~= e.drop_last().update(i, x));
    }
}

/// A sum over lines of which one leaves loses what the line added.
pub proof fn lemma_weigh_remove(e: Seq<Entry>, i: int, f: spec_fn(Entry) -> int)
    requires
        0 <= i < e.len(),
    ensures
        weigh(e.remove(i), f) == weigh(e, f) - f(e[i]),
    decreases e.len(),
{
    if i == e.len() - 1 {
        assert(e.remove(i) =~= e.drop_last());
    } else {
        lemma_weigh_remove(e.drop_last(), i, f);
        assert(e.remove(i).drop_last() =~= e.drop_last().remove(i));
        assert(e.remove(i).last() == e.last());
    }
}

/// Where no line adds less than nothing, the first lines add up to no more
/// than all lines.
pub proof fn lemma_weigh_bounds(e: Seq<Entry>, i: int, f: spec_fn(Entry) -> int)
    requires
        0 <= i <= e.len(),
        forall|j: int| 0 <= j < e.len() ==> f(#[trigger] e[j]) >= 0,
    ensures
        0 <= weigh(e.take(i), f) <= weigh(e, f),
    decreases e.len(),
{
    if i == e.len() {
        assert(e.take(i) =~= e);
        lemma_weigh_whole_nonneg(e, f);
    } else {
        lemma_weigh_bounds(e.drop_last(), i, f);
        assert(e.drop_last().take(i) =~= e.take(i));
        assert(f(e[e.len() - 1]) >= 0);
    }
}

/// Where no line adds less than nothing, the sum is not negative.
pub proof fn lemma_weigh_whole_nonneg(e: Seq<Entry>, f: spec_fn(Entry) -> int)
    requires
        forall|j: int| 0 <= j < e.len() ==> f(#[trigger] e[j]) >= 0,
    ensures
        0 <= weigh(e, f),
    decreases e.len(),
{
    if e.len() > 0 {
        lemma_weigh_whole_nonneg(e.drop_last(), f);
    }
}

/// The sum over the first lines grows line by line.
pub proof fn lemma_weigh_take_next(e: Seq<Entry>, i: int, f: spec_fn(Entry) -> int)
    requires
        0 <= i < e.len(),
    ensures
        weigh(e.take(i + 1), f) == weigh(e.take(i), f) + f(e[i]),
{
    assert(e.take(i + 1).drop_last() =~= e.take(i));
}

/// A kind that no line names is not held.
pub proof fn lemma_count_absent(e: Seq<Entry>, k: StuffModel)
    requires
        !holds(e, k),
    ensures
        count_of(e, k) == 0,
    decreases e.len(),
{
    if e.len() > 0 {
        assert(e.last() == e[e.len() - 1]);
        assert forall|i: int| 0 <= i < e.drop_last().len() implies (#[trigger] e.drop_last()[i]).0
            != k by {
            assert(e.drop_last()[i] == e[i]);
        }
        lemma_count_absent(e.drop_last(), k);
    }
}

/// Where no kind stands twice, a kind is held as often as its line says.
pub proof fn lemma_count_present(e: Seq<Entry>, i: int)
    requires
        0 <= i < e.len(),
        forall|a: int, b: int| 0 <= a < b < e.len() ==> (#[trigger] e[a]).0 != (#[trigger] e[b]).0,
    ensures
        count_of(e, e[i].0) == e[i].1,
        holds(e, e[i].0),
        slot(e, e[i].0) == i,
{
    let k = e[i].0;
    lemma_weigh_remove(e, i, tally(k));
    assert(!holds(e.remove(i), k)) by {
        if holds(e.remove(i), k) {
            let j = choose|j: int| 0 <= j < e.remove(i).len() && (#[trigger] e.remove(i)[j]).0 == k;
            if j < i {
                assert(e.remove(i)[j] == e[j]);
            } else {
                assert(e.remove(i)[j] == e[j + 1]);
            }
        }
    }
    lemma_count_absent(e.remove(i), k);
    let s = slot(e, k);
    assert(0 <= s < e.len() && e[s].0 == k);
}

/// A count is never negative in a ledger's lines.
pub proof fn lemma_count_nonneg(e: Seq<Entry>, k: StuffModel)
    requires
        tidy(e),
    ensures
        0 <= count_of(e, k) <= i32::MAX,
        0 <= worth_of(e),
        holds(e, k) <==> count_of(e, k) > 0,
{
    if holds(e, k) {
        let i = slot(e, k);
        lemma_count_present(e, i);
    } else {
        lemma_count_absent(e, k);
    }
    assert forall|j: int| 0 <= j < e.len() implies price()(#[trigger] e[j]) >= 0 by {
        assert(e[j].0.value() >= 0 && e[j].1 > 0);
        assert(e[j].0.value() * e[j].1 >= 0) by (nonlinear_arith)
            requires
                e[j].0.value() >= 0,
                e[j].1 > 0,
        ;
    }
    lemma_weigh_whole_nonneg(e, price());
}


/// Putting into a ledger's lines gives a ledger's lines again, and changes
/// the contents as `put_one` says.
pub proof fn lemma_put_entry(e: Seq<Entry>, k: StuffModel, n: int)
    requires
        tidy(e),
        put_ok(contents(e), k, n),
    ensures
        tidy(put_entry(e, k, n)),
        contents(put_entry(e, k, n)) == put_one(contents(e), k, n),
{
    let out = put_entry(e, k, n);
    lemma_count_nonneg(e, k);
    if n > 0 {
        assert(k.value() * n >= k.value()) by (nonlinear_arith)
            requires
                k.value() >= 0,
                n >= 1,
        ;
    }
    if n == 0 {
        assert(contents(e).counts =~= put_one(contents(e), k, n).counts);
    } else if holds(e, k) {
        let i = slot(e, k);
        let c = e[i].1;
        lemma_count_present(e, i);
        assert forall|k2: StuffModel| count_of(out, k2) == count_of(e, k2) + (if k2 == k {
            n
        } else {
            0
        }) by {
            lemma_weigh_update(e, i, (k, c + n), tally(k2));
        }
        lemma_weigh_update(e, i, (k, c + n), price());
        assert(k.value() * (c + n) == k.value() * c + k.value() * n) by (nonlinear_arith);
        assert(contents(out).counts =~= put_one(contents(e), k, n).counts);
        assert forall|a: int, b: int| 0 <= a < b < out.len() implies (#[trigger] out[a]).0 != (
        #[trigger] out[b]).0 by {
            assert(out[a].0 == e[a].0 && out[b].0 == e[b].0);
        }
    } else {
        assert forall|k2: StuffModel| count_of(out, k2) == count_of(e, k2) + (if k2 == k {
            n
        } else {
            0
        }) by {
            lemma_weigh_push(e, (k, n), tally(k2));
        }
        lemma_weigh_push(e, (k, n), price());
        assert(contents(out).counts =~= put_one(contents(e), k, n).counts);
        assert forall|a: int, b: int| 0 <= a < b < out.len() implies (#[trigger] out[a]).0 != (
        #[trigger] out[b]).0 by {
            if b == e.len() {
                assert(e[a].0 != k);
            } else {
                assert(out[a] == e[a] && out[b] == e[b]);
            }
        }
    }
}

/// Taking from a ledger's lines gives a ledger's lines again, and changes the
/// contents as `take_one` says.
pub proof fn lemma_take_entry(e: Seq<Entry>, k: StuffModel, n: int)
    requires
        tidy(e),
        take_fault(contents(e), k, n) is None,
    ensures
        tidy(take_entry(e, k, n)),
        contents(take_entry(e, k, n)) == take_one(contents(e), k, n),
{
    let out = take_entry(e, k, n);
    lemma_count_nonneg(e, k);
    if n == 0 {
        assert(contents(e).counts =~= take_one(contents(e), k, n).counts);
    } else {
        let i = slot(e, k);
        let c = e[i].1;
        lemma_count_present(e, i);
        assert(e[i].0.value() * c >= e[i].0.value() * n >= 0) by (nonlinear_arith)
            requires
                e[i].0.value() >= 0,
                c >= n > 0,
        ;
        if c == n {
            assert forall|k2: StuffModel| count_of(out, k2) == count_of(e, k2) - (if k2 == k {
                n
            } else {
                0
            }) by {
                lemma_weigh_remove(e, i, tally(k2));
            }
            lemma_weigh_remove(e, i, price());
            assert forall|a: int, b: int| 0 <= a < b < out.len() implies (#[trigger] out[a]).0 != (
            #[trigger] out[b]).0 by {
                let a0 = if a < i { a } else { a + 1 };
                let b0 = if b < i { b } else { b + 1 };
                assert(out[a] == e[a0] && out[b] == e[b0]);
            }
            assert forall|j: int| 0 <= j < out.len() implies 0 < (#[trigger] out[j]).1 <= i32::MAX
                && 0 <= out[j].0.value() <= i32::MAX by {
                let j0 = if j < i { j } else { j + 1 };
                assert(out[j] == e[j0]);
            }
        } else {
            assert forall|k2: StuffModel| count_of(out, k2) == count_of(e, k2) - (if k2 == k {
                n
            } else {
                0
            }) by {
                lemma_weigh_update(e, i, (k, c - n), tally(k2));
            }
            lemma_weigh_update(e, i, (k, c - n), price());
            assert(k.value() * (c - n) == k.value() * c - k.value() * n) by (nonlinear_arith);
            assert forall|a: int, b: int| 0 <= a < b < out.len() implies (#[trigger] out[a]).0 != (
            #[trigger] out[b]).0 by {
                assert(out[a].0 == e[a].0 && out[b].0 == e[b].0);
            }
        }
        assert(contents(out).counts =~= take_one(contents(e), k, n).counts);
    }
}

/// A ledger: how many units of each kind of stuff one owner holds. A kind
/// that is held stands on one line with a positive quantity; a line whose
/// quantity reaches zero leaves.
#[derive(Debug)]
pub struct MyBank {
    basket: Vec<(StuffType, i32)>,
}

impl View for MyBank {
    type V = Holdings;

    open spec fn view(&self) -> Holdings {
        contents(self.entries())
    }
}

impl Clone for MyBank {
    /// A ledger with the same lines.
    fn clone(&self) -> (r: MyBank)
        ensures
            r.entries() == self.entries(),
    {
        proof {
            use_type_invariant(self);
        }
        let mut basket: Vec<(StuffType, i32)> = Vec::new();
        let mut i: usize = 0;
        while i < self.basket.len()
            invariant
                0 <= i <= self.basket.len(),
                basket@ == self.basket@.take(i as int),
            decreases self.basket.len() - i,
        {
            basket.push(self.basket[i]);
            assert(self.basket@.take(i + 1) =~= self.basket@.take(i as int).push(self.basket@[i as int]));
            i = i + 1;
        }
        assert(self.basket@.take(self.basket.len() as int) =~= self.basket@);
        MyBank { basket }
    }
}

impl MyBank {
    /// Every ledger is as `wf` says.
    #[verifier::type_invariant]
    pub open spec fn inv(&self) -> bool {
        self.wf()
    }

    /// The ledger's lines in their order.
    pub closed spec fn entries(&self) -> Seq<Entry> {
        listing(self.basket@)
    }

    /// What holds of every ledger: see `tidy`.
    pub open spec fn wf(&self) -> bool {
        tidy(self.entries())
    }

    /// The valuation: the sum over the lines of face value times quantity.
    pub open spec fn valuation(&self) -> int {
        self@.worth
    }

    /// An empty ledger.
    pub fn new() -> (bank: MyBank)
        ensures
            bank.entries() == Seq::<Entry>::empty(),
            bank.wf(),
    {
        let bank = MyBank { basket: Vec::new() };
        assert(bank.entries() =~= Seq::<Entry>::empty());
        bank
    }

    /// The place of the line of `what`, if there is one.
    fn find(&self, what: &StuffType) -> (r: Option<usize>)
        ensures
            match r {
                Some(i) => i < self.entries().len() && self.entries()[i as int].0 == what@
                    && self.basket@[i as int].0@ == what@,
                None => !holds(self.entries(), what@),
            },
            self.entries().len() == self.basket@.len(),
    {
        let mut i: usize = 0;
        while i < self.basket.len()
            invariant
                0 <= i <= self.basket.len(),
                forall|j: int| 0 <= j < i ==> (#[trigger] self.entries()[j]).0 != what@,
                self.entries().len() == self.basket@.len(),
            decreases self.basket.len() - i,
        {
            if self.basket[i].0 == *what {
                return Some(i);
            }
            i = i + 1;
        }
        None
    }

    /// The lines of the ledger, in their order.
    pub fn get_basket_vec(&self) -> (r: Vec<(&StuffType, i32)>)
        ensures
            batch_of(r@) == self.entries(),
            self.wf(),
    {
        proof {
            use_type_invariant(self);
        }
        let mut out: Vec<(&StuffType, i32)> = Vec::new();
        let mut i: usize = 0;
        while i < self.basket.len()
            invariant
                0 <= i <= self.basket.len(),
                batch_of(out@) == self.entries().take(i as int),
            decreases self.basket.len() - i,
        {
            let ghost before = out@;
            out.push((&self.basket[i].0, self.basket[i].1));
            assert(out@.drop_last() =~= before);
            assert(batch_of(out@) =~= batch_of(before).push(self.entries()[i as int]));
            assert(self.entries().take(i + 1) =~= self.entries().take(i as int).push(
                self.entries()[i as int],
            ));
            i = i + 1;
        }
        assert(self.entries().take(self.basket.len() as int) =~= self.entries());
        out
    }

    /// How many kinds of stuff the ledger holds.
    pub fn kinds(&self) -> (n: usize)
        ensures
            n == self.entries().len(),
    {
        self.basket.len()
    }

    /// The kind on the `index`-th line.
    pub fn item_at(&self, index: usize) -> (r: &StuffType)
        requires
            index < self.entries().len(),
        ensures
            r@ == self.entries()[index as int].0,
    {
        &self.basket[index].0
    }

    /// One of the kinds that the ledger holds, each kind as likely as any
    /// other whatever its quantity. It is refused with `InsufficientStuff`
    /// where the ledger is empty.
    pub fn read_random_item(&self, rng: &mut RandomSource) -> (r: Result<&StuffType, ErrorKind>)
        ensures
            self.entries().len() == 0 <==> r == Err::<&StuffType, ErrorKind>(
                ErrorKind::InsufficientStuff,
            ),
            self.entries().len() > 0 ==> r is Ok && holds(self.entries(), r->Ok_0@),
    {
        let length = self.kinds();
        if length == 0 {
            return Err(ErrorKind::InsufficientStuff);
        }
        let drawn = rng.below(length);
        let item = self.item_at(drawn);
        assert(self.entries()[drawn as int].0 == item@);
        Ok(item)
    }

    /// How many units of `what` the ledger holds.
    pub fn count(&self, what: &StuffType) -> (n: i32)
        ensures
            n == self@.counts[what@],
            n >= 0,
    {
        proof {
            use_type_invariant(self);
            lemma_count_nonneg(self.entries(), what@);
        }
        match self.find(what) {
            Some(i) => {
                proof {
                    lemma_count_present(self.entries(), i as int);
                }
                self.basket[i].1
            },
            None => {
                proof {
                    lemma_count_absent(self.entries(), what@);
                }
                0
            },
        }
    }

    /// Empties the ledger.
    pub fn stuff_clear(&mut self)
        ensures
            final(self).entries() == Seq::<Entry>::empty(),
            final(self).wf(),
    {
        self.basket = Vec::new();
        assert(self.entries() =~= Seq::<Entry>::empty());
    }

    /// The valuation of the ledger: the sum over its lines of face value
    /// times quantity. A card is worth 0.
    pub fn get_values_of_bank(&self) -> (values: i32)
        ensures
            values == self.valuation(),
            values >= 0,
    {
        proof {
            use_type_invariant(self);
            lemma_count_nonneg(self.entries(), StuffModel::Denomination(Seq::empty(), 0));
        }
        let ghost e = self.entries();
        let mut values: i64 = 0;
        let mut i: usize = 0;
        while i < self.basket.len()
            invariant
                0 <= i <= self.basket.len(),
                e == self.entries(),
                e.len() == self.basket@.len(),
                tidy(e),
                values == worth_of(e.take(i as int)),
                0 <= values <= worth_of(e),
            decreases self.basket.len() - i,
        {
            let v = self.basket[i].0.get_value();
            let c = self.basket[i].1;
            proof {
                assert forall|j: int| 0 <= j < e.len() implies price()(#[trigger] e[j]) >= 0 by {
                    assert(e[j].0.value() * e[j].1 >= 0) by (nonlinear_arith)
                        requires
                            e[j].0.value() >= 0,
                            e[j].1 > 0,
                    ;
                }
                lemma_weigh_take_next(e, i as int, price());
                lemma_weigh_bounds(e, i + 1, price());
                assert(e[i as int] == (self.basket@[i as int].0@, self.basket@[i as int].1 as int));
            }
            values = values + (v as i64) * (c as i64);
            i = i + 1;
        }
        assert(e.take(e.len() as int) =~= e);
        values as i32
    }
}

/// What a batch of (stuff, quantity) pairs says, as mathematical values.
pub open spec fn batch_of(v: Seq<(&StuffType, i32)>) -> Seq<Entry> {
    v.map_values(|p: (&StuffType, i32)| (p.0@, p.1 as int))
}


/// Moving stuff into, out of and between ledgers. `T` is what is moved and
/// `U` how: one kind of stuff with a quantity, or a batch of such pairs with
/// the choice whether the batch is all or nothing. `E` reports a refusal.
pub trait BankManager<T, U, E>: Sized {
    /// Moves stuff from this ledger to `destination`.
    fn stuff_transfer(&mut self, what: &T, how_many: U, destination: &mut Self) -> Result<(), E>;

    /// Puts stuff into this ledger.
    fn stuff_in(&mut self, what: &T, how_many: U) -> Result<(), E>;

    /// Takes stuff out of this ledger.
    fn stuff_out(&mut self, what: &T, how_many: U) -> Result<(), E>;
}

impl BankManager<StuffType, i32, ErrorKind> for MyBank {
    /// Moves `how_many` units of `what` to `destination`, or changes nothing.
    /// It is refused as the taking would be, and else with `InvalidQuantity`
    /// where `destination` cannot hold the units.
    fn stuff_transfer(&mut self, what: &StuffType, how_many: i32, destination: &mut MyBank) -> (r:
        Result<(), ErrorKind>)
        ensures
            final(self).wf(),
            final(destination).wf(),
            r == move_result(old(self)@, old(destination)@, what@, how_many as int),
            r is Ok ==> final(self).entries() == take_entry(
                old(self).entries(),
                what@,
                how_many as int,
            ) && final(destination).entries() == put_entry(
                old(destination).entries(),
                what@,
                how_many as int,
            ),
            r is Ok ==> final(self)@ == take_one(old(self)@, what@, how_many as int)
                && final(destination)@ == put_one(old(destination)@, what@, how_many as int),
            (final(self).entries(), final(destination).entries()) == move_one(
                old(self).entries(),
                old(destination).entries(),
                what@,
                how_many as int,
            ),
            r is Err ==> final(self)@ == old(self)@
                && final(destination).entries() == old(destination).entries(),
            final(self).valuation() + final(destination).valuation()
                == old(self).valuation() + old(destination).valuation(),
    {
        proof {
            use_type_invariant(&*self);
            use_type_invariant(&*destination);
            lemma_count_nonneg(self.entries(), what@);
            lemma_count_nonneg(destination.entries(), what@);
        }
        let ghost h0 = self@;
        match self.stuff_out(what, how_many) {
            Err(e) => Err(e),
            Ok(()) => {
                match destination.stuff_in(what, how_many) {
                    Ok(()) => Ok(()),
                    Err(e) => {
                        proof {
                            lemma_count_nonneg(self.entries(), what@);
                            assert(put_ok(self@, what@, how_many as int));
                        }
                        let back = self.stuff_in(what, how_many);
                        proof {
                            assert(self@.counts =~= h0.counts);
                        }
                        Err(e)
                    },
                }
            },
        }
    }

    /// Puts `how_many` units of `what` into the ledger. Putting 0 units
    /// changes nothing and succeeds. It is refused with `InvalidQuantity`
    /// where `how_many` is negative, the face value is negative, or the
    /// quantity or the valuation would no longer fit 32 bits; the ledger is
    /// then unchanged.
    fn stuff_in(&mut self, what: &StuffType, how_many: i32) -> (r: Result<(), ErrorKind>)
        ensures
            final(self).wf(),
            put_ok(old(self)@, what@, how_many as int) ==> r is Ok && final(self).entries()
                == put_entry(old(self).entries(), what@, how_many as int) && final(self)@
                == put_one(old(self)@, what@, how_many as int),
            !put_ok(old(self)@, what@, how_many as int) ==> r == Err::<(), ErrorKind>(
                ErrorKind::InvalidQuantity,
            ) && final(self).entries() == old(self).entries(),
    {
        proof {
            use_type_invariant(&*self);
            lemma_count_nonneg(self.entries(), what@);
        }
        let ghost e = self.entries();
        if how_many < 0 {
            return Err(ErrorKind::InvalidQuantity);
        }
        if how_many == 0 {
            proof {
                lemma_put_entry(e, what@, 0);
            }
            return Ok(());
        }
        let value = what.get_value();
        if value < 0 {
            return Err(ErrorKind::InvalidQuantity);
        }
        let worth = self.get_values_of_bank();
        assert(0 <= (value as int) * (how_many as int) <= 0x4000_0000_0000_0000) by (nonlinear_arith)
            requires
                0 <= value <= 0x7fff_ffff,
                0 < how_many <= 0x7fff_ffff,
        ;
        if worth as i64 + (value as i64) * (how_many as i64) > i32::MAX as i64 {
            return Err(ErrorKind::InvalidQuantity);
        }
        match self.find(what) {
            Some(i) => {
                let (key, held) = self.basket[i];
                proof {
                    lemma_count_present(e, i as int);
                }
                if held as i64 + how_many as i64 > i32::MAX as i64 {
                    return Err(ErrorKind::InvalidQuantity);
                }
                let mut basket: Vec<(StuffType, i32)> = Vec::new();
                proof {
                    assert(tidy(listing(basket@))) by {
                        assert(listing(basket@) =~= Seq::<Entry>::empty());
                    }
                }
                core::mem::swap(&mut self.basket, &mut basket);
                basket[i] = (key, held + how_many);
                proof {
                    lemma_put_entry(e, what@, how_many as int);
                    assert(listing(basket@) =~= put_entry(e, what@, how_many as int));
                }
                self.basket = basket;
            },
            None => {
                proof {
                    lemma_count_absent(e, what@);
                }
                let mut basket: Vec<(StuffType, i32)> = Vec::new();
                proof {
                    assert(tidy(listing(basket@))) by {
                        assert(listing(basket@) =~= Seq::<Entry>::empty());
                    }
                }
                core::mem::swap(&mut self.basket, &mut basket);
                basket.push((*what, how_many));
                proof {
                    lemma_put_entry(e, what@, how_many as int);
                    assert(listing(basket@) =~= put_entry(e, what@, how_many as int));
                }
                self.basket = basket;
            },
        }
        Ok(())
    }

    /// Takes `how_many` units of `what` out of the ledger. Taking 0 units
    /// changes nothing and succeeds. It is refused with `InvalidQuantity`
    /// where `how_many` is negative and with `InsufficientStuff` where the
    /// ledger holds fewer units; the ledger is then unchanged.
    fn stuff_out(&mut self, what: &StuffType, how_many: i32) -> (r: Result<(), ErrorKind>)
        ensures
            final(self).wf(),
            match take_fault(old(self)@, what@, how_many as int) {
                None => r is Ok && final(self).entries() == take_entry(
                    old(self).entries(),
                    what@,
                    how_many as int,
                ) && final(self)@ == take_one(old(self)@, what@, how_many as int),
                Some(kind) => r == Err::<(), ErrorKind>(kind)
                    && final(self).entries() == old(self).entries(),
            },
    {
        proof {
            use_type_invariant(&*self);
            lemma_count_nonneg(self.entries(), what@);
        }
        let ghost e = self.entries();
        if how_many < 0 {
            return Err(ErrorKind::InvalidQuantity);
        }
        if how_many == 0 {
            proof {
                lemma_take_entry(e, what@, 0);
            }
            return Ok(());
        }
        match self.find(what) {
            Some(i) => {
                let (key, held) = self.basket[i];
                proof {
                    lemma_count_present(e, i as int);
                }
                if held < how_many {
                    return Err(ErrorKind::InsufficientStuff);
                }
                let mut basket: Vec<(StuffType, i32)> = Vec::new();
                proof {
                    assert(tidy(listing(basket@))) by {
                        assert(listing(basket@) =~= Seq::<Entry>::empty());
                    }
                }
                core::mem::swap(&mut self.basket, &mut basket);
                if held == how_many {
                    basket.remove(i);
                } else {
                    basket[i] = (key, held - how_many);
                }
                proof {
                    lemma_take_entry(e, what@, how_many as int);
                    assert(listing(basket@) =~= take_entry(e, what@, how_many as int));
                }
                self.basket = basket;
                Ok(())
            },
            None => {
                proof {
                    lemma_count_absent(e, what@);
                }
                Err(ErrorKind::InsufficientStuff)
            },
        }
    }
}

/// The lines of two ledgers after `n` units of `k` were to move from the
/// first to the second. Where the second cannot hold them, they were taken
/// from the first and put back.
pub open spec fn move_one(from: Seq<Entry>, to: Seq<Entry>, k: StuffModel, n: int) -> (
    Seq<Entry>,
    Seq<Entry>,
) {
    if take_fault(contents(from), k, n) is Some {
        (from, to)
    } else if put_ok(contents(to), k, n) {
        (take_entry(from, k, n), put_entry(to, k, n))
    } else {
        (put_entry(take_entry(from, k, n), k, n), to)
    }
}

/// What moving `n` units of `k` between ledgers with contents `from` and
/// `to` answers: the refusal of the taking, else that of the putting.
pub open spec fn move_result(from: Holdings, to: Holdings, k: StuffModel, n: int) -> Result<
    (),
    ErrorKind,
> {
    match take_fault(from, k, n) {
        Some(kind) => Err(kind),
        None => if put_ok(to, k, n) {
            Ok(())
        } else {
            Err(ErrorKind::InvalidQuantity)
        },
    }
}


/// One refused item of a batch: its place in the batch and why it was
/// refused.
pub type Fault = (int, ErrorKind);

/// What a report of refused items says, as mathematical values.
pub open spec fn report_of(v: Seq<(usize, ErrorKind)>) -> Seq<Fault> {
    v.map_values(|p: (usize, ErrorKind)| (p.0 as int, p.1))
}

/// The lines after each item of the batch was put in, in order; an item that
/// cannot be put in is passed over.
pub open spec fn put_each(e: Seq<Entry>, items: Seq<Entry>) -> Seq<Entry>
    decreases items.len(),
{
    if items.len() == 0 {
        e
    } else {
        let before = put_each(e, items.drop_last());
        if put_ok(contents(before), items.last().0, items.last().1) {
            put_entry(before, items.last().0, items.last().1)
        } else {
            before
        }
    }
}

/// The items that `put_each` passes over, in order.
pub open spec fn put_faults(e: Seq<Entry>, items: Seq<Entry>) -> Seq<Fault>
    decreases items.len(),
{
    if items.len() == 0 {
        Seq::empty()
    } else {
        let before = put_each(e, items.drop_last());
        let faults = put_faults(e, items.drop_last());
        if put_ok(contents(before), items.last().0, items.last().1) {
            faults
        } else {
            faults.push((items.len() - 1, ErrorKind::InvalidQuantity))
        }
    }
}

/// The lines after each item of the batch was taken out, in order; an item
/// that cannot be taken is passed over.
pub open spec fn take_each(e: Seq<Entry>, items: Seq<Entry>) -> Seq<Entry>
    decreases items.len(),
{
    if items.len() == 0 {
        e
    } else {
        let before = take_each(e, items.drop_last());
        if take_fault(contents(before), items.last().0, items.last().1) is None {
            take_entry(before, items.last().0, items.last().1)
        } else {
            before
        }
    }
}

/// The items that `take_each` passes over, in order.
pub open spec fn take_faults(e: Seq<Entry>, items: Seq<Entry>) -> Seq<Fault>
    decreases items.len(),
{
    if items.len() == 0 {
        Seq::empty()
    } else {
        let before = take_each(e, items.drop_last());
        let faults = take_faults(e, items.drop_last());
        match take_fault(contents(before), items.last().0, items.last().1) {
            None => faults,
            Some(kind) => faults.push((items.len() - 1, kind)),
        }
    }
}

/// The lines of two ledgers after each item of the batch was moved from the
/// first to the second, in order; an item that cannot be moved is passed
/// over.
pub open spec fn move_each(from: Seq<Entry>, to: Seq<Entry>, items: Seq<Entry>) -> (
    Seq<Entry>,
    Seq<Entry>,
)
    decreases items.len(),
{
    if items.len() == 0 {
        (from, to)
    } else {
        let before = move_each(from, to, items.drop_last());
        move_one(before.0, before.1, items.last().0, items.last().1)
    }
}

/// The items that `move_each` passes over, in order.
pub open spec fn move_faults(from: Seq<Entry>, to: Seq<Entry>, items: Seq<Entry>) -> Seq<Fault>
    decreases items.len(),
{
    if items.len() == 0 {
        Seq::empty()
    } else {
        let before = move_each(from, to, items.drop_last());
        let faults = move_faults(from, to, items.drop_last());
        match move_result(contents(before.0), contents(before.1), items.last().0, items.last().1) {
            Ok(_) => faults,
            Err(kind) => faults.push((items.len() - 1, kind)),
        }
    }
}

/// The refusals among the first `i` items are the first refusals of the
/// whole batch.
pub proof fn lemma_put_faults_prefix(e: Seq<Entry>, items: Seq<Entry>, i: int)
    requires
        0 <= i <= items.len(),
    ensures
        put_faults(e, items.take(i)).len() <= put_faults(e, items).len(),
        put_faults(e, items.take(i)) == put_faults(e, items).take(
            put_faults(e, items.take(i)).len() as int,
        ),
    decreases items.len(),
{
    if i == items.len() {
        assert(items.take(i) =~= items);
        assert(put_faults(e, items).take(put_faults(e, items).len() as int) =~= put_faults(
            e,
            items,
        ));
    } else {
        lemma_put_faults_prefix(e, items.drop_last(), i);
        assert(items.drop_last().take(i) =~= items.take(i));
        let short = put_faults(e, items.drop_last());
        let n = put_faults(e, items.take(i)).len() as int;
        assert(put_faults(e, items).take(n) =~= short.take(n));
    }
}

/// The same for taking.
pub proof fn lemma_take_faults_prefix(e: Seq<Entry>, items: Seq<Entry>, i: int)
    requires
        0 <= i <= items.len(),
    ensures
        take_faults(e, items.take(i)).len() <= take_faults(e, items).len(),
        take_faults(e, items.take(i)) == take_faults(e, items).take(
            take_faults(e, items.take(i)).len() as int,
        ),
    decreases items.len(),
{
    if i == items.len() {
        assert(items.take(i) =~= items);
        assert(take_faults(e, items).take(take_faults(e, items).len() as int) =~= take_faults(
            e,
            items,
        ));
    } else {
        lemma_take_faults_prefix(e, items.drop_last(), i);
        assert(items.drop_last().take(i) =~= items.take(i));
        let short = take_faults(e, items.drop_last());
        let n = take_faults(e, items.take(i)).len() as int;
        assert(take_faults(e, items).take(n) =~= short.take(n));
    }
}

/// The same for moving.
pub proof fn lemma_move_faults_prefix(from: Seq<Entry>, to: Seq<Entry>, items: Seq<Entry>, i: int)
    requires
        0 <= i <= items.len(),
    ensures
        move_faults(from, to, items.take(i)).len() <= move_faults(from, to, items).len(),
        move_faults(from, to, items.take(i)) == move_faults(from, to, items).take(
            move_faults(from, to, items.take(i)).len() as int,
        ),
    decreases items.len(),
{
    if i == items.len() {
        assert(items.take(i) =~= items);
        assert(move_faults(from, to, items).take(move_faults(from, to, items).len() as int)
            =~= move_faults(from, to, items));
    } else {
        lemma_move_faults_prefix(from, to, items.drop_last(), i);
        assert(items.drop_last().take(i) =~= items.take(i));
        let short = move_faults(from, to, items.drop_last());
        let n = move_faults(from, to, items.take(i)).len() as int;
        assert(move_faults(from, to, items).take(n) =~= short.take(n));
    }
}

/// Putting back what was taken, and taking what was put, restores the
/// contents.
pub proof fn lemma_undo(e: Seq<Entry>, k: StuffModel, n: int)
    ensures
        take_one(put_one(contents(e), k, n), k, n) == contents(e),
        put_one(take_one(contents(e), k, n), k, n) == contents(e),
{
    let h = contents(e);
    assert(take_one(put_one(h, k, n), k, n).counts =~= h.counts);
    assert(put_one(take_one(h, k, n), k, n).counts =~= h.counts);
}

/// How the `i`-th item continues the putting of the first `i` items.
pub proof fn lemma_put_step(e: Seq<Entry>, items: Seq<Entry>, i: int)
    requires
        0 <= i < items.len(),
    ensures
        put_each(e, items.take(i + 1)) == (if put_ok(
            contents(put_each(e, items.take(i))),
            items[i].0,
            items[i].1,
        ) {
            put_entry(put_each(e, items.take(i)), items[i].0, items[i].1)
        } else {
            put_each(e, items.take(i))
        }),
        put_faults(e, items.take(i + 1)) == (if put_ok(
            contents(put_each(e, items.take(i))),
            items[i].0,
            items[i].1,
        ) {
            put_faults(e, items.take(i))
        } else {
            put_faults(e, items.take(i)).push((i, ErrorKind::InvalidQuantity))
        }),
{
    assert(items.take(i + 1).drop_last() =~= items.take(i));
    assert(items.take(i + 1).last() == items[i]);
}

/// How the `i`-th item continues the taking of the first `i` items.
pub proof fn lemma_take_step(e: Seq<Entry>, items: Seq<Entry>, i: int)
    requires
        0 <= i < items.len(),
    ensures
        take_each(e, items.take(i + 1)) == (if take_fault(
            contents(take_each(e, items.take(i))),
            items[i].0,
            items[i].1,
        ) is None {
            take_entry(take_each(e, items.take(i)), items[i].0, items[i].1)
        } else {
            take_each(e, items.take(i))
        }),
        take_faults(e, items.take(i + 1)) == (match take_fault(
            contents(take_each(e, items.take(i))),
            items[i].0,
            items[i].1,
        ) {
            None => take_faults(e, items.take(i)),
            Some(kind) => take_faults(e, items.take(i)).push((i, kind)),
        }),
{
    assert(items.take(i + 1).drop_last() =~= items.take(i));
    assert(items.take(i + 1).last() == items[i]);
}

/// How the `i`-th item continues the moving of the first `i` items.
pub proof fn lemma_move_step(from: Seq<Entry>, to: Seq<Entry>, items: Seq<Entry>, i: int)
    requires
        0 <= i < items.len(),
    ensures
        move_each(from, to, items.take(i + 1)) == move_one(
            move_each(from, to, items.take(i)).0,
            move_each(from, to, items.take(i)).1,
            items[i].0,
            items[i].1,
        ),
        move_faults(from, to, items.take(i + 1)) == (match move_result(
            contents(move_each(from, to, items.take(i)).0),
            contents(move_each(from, to, items.take(i)).1),
            items[i].0,
            items[i].1,
        ) {
            Ok(_) => move_faults(from, to, items.take(i)),
            Err(kind) => move_faults(from, to, items.take(i)).push((i, kind)),
        }),
{
    assert(items.take(i + 1).drop_last() =~= items.take(i));
    assert(items.take(i + 1).last() == items[i]);
}

/// Putting a batch into a ledger's lines gives a ledger's lines.
pub proof fn lemma_put_each_tidy(e: Seq<Entry>, items: Seq<Entry>)
    requires
        tidy(e),
    ensures
        tidy(put_each(e, items)),
    decreases items.len(),
{
    if items.len() > 0 {
        lemma_put_each_tidy(e, items.drop_last());
        let before = put_each(e, items.drop_last());
        if put_ok(contents(before), items.last().0, items.last().1) {
            lemma_put_entry(before, items.last().0, items.last().1);
        }
    }
}

/// Taking a batch from a ledger's lines gives a ledger's lines.
pub proof fn lemma_take_each_tidy(e: Seq<Entry>, items: Seq<Entry>)
    requires
        tidy(e),
    ensures
        tidy(take_each(e, items)),
    decreases items.len(),
{
    if items.len() > 0 {
        lemma_take_each_tidy(e, items.drop_last());
        let before = take_each(e, items.drop_last());
        if take_fault(contents(before), items.last().0, items.last().1) is None {
            lemma_take_entry(before, items.last().0, items.last().1);
        }
    }
}

/// Moving between two ledgers' lines gives two ledgers' lines. Where the
/// move is refused both hold what they held.
pub proof fn lemma_move_one(from: Seq<Entry>, to: Seq<Entry>, k: StuffModel, n: int)
    requires
        tidy(from),
        tidy(to),
    ensures
        tidy(move_one(from, to, k, n).0),
        tidy(move_one(from, to, k, n).1),
        move_result(contents(from), contents(to), k, n) is Ok ==> contents(
            move_one(from, to, k, n).0,
        ) == take_one(contents(from), k, n) && contents(move_one(from, to, k, n).1) == put_one(
            contents(to),
            k,
            n,
        ),
        move_result(contents(from), contents(to), k, n) is Err ==> contents(
            move_one(from, to, k, n).0,
        ) == contents(from) && move_one(from, to, k, n).1 == to,
        worth_of(move_one(from, to, k, n).0) + worth_of(move_one(from, to, k, n).1) == worth_of(
            from,
        ) + worth_of(to),
        forall|k2: StuffModel| #[trigger]
            count_of(move_one(from, to, k, n).0, k2) + count_of(move_one(from, to, k, n).1, k2)
                == count_of(from, k2) + count_of(to, k2),
{
    lemma_count_nonneg(from, k);
    lemma_count_nonneg(to, k);
    assert forall|k2: StuffModel| #[trigger]
        count_of(move_one(from, to, k, n).0, k2) + count_of(move_one(from, to, k, n).1, k2)
            == count_of(from, k2) + count_of(to, k2) by {
        if take_fault(contents(from), k, n) is None {
            lemma_take_entry(from, k, n);
            if put_ok(contents(to), k, n) {
                lemma_put_entry(to, k, n);
                assert(contents(take_entry(from, k, n)).counts[k2] == take_one(
                    contents(from),
                    k,
                    n,
                ).counts[k2]);
                assert(contents(put_entry(to, k, n)).counts[k2] == put_one(
                    contents(to),
                    k,
                    n,
                ).counts[k2]);
            } else {
                let mid = take_entry(from, k, n);
                lemma_undo(from, k, n);
                if n > 0 {
                    lemma_count_present(from, slot(from, k));
                }
                lemma_put_entry(mid, k, n);
                assert(contents(put_entry(mid, k, n)).counts[k2] == contents(from).counts[k2]);
            }
        }
    }
    if take_fault(contents(from), k, n) is None {
        lemma_take_entry(from, k, n);
        if put_ok(contents(to), k, n) {
            lemma_put_entry(to, k, n);
        } else {
            let mid = take_entry(from, k, n);
            lemma_undo(from, k, n);
            if n > 0 {
                lemma_count_present(from, slot(from, k));
            }
            lemma_put_entry(mid, k, n);
        }
    }
}

/// Moving a batch between two ledgers' lines gives two ledgers' lines, worth
/// together what they were worth.
pub proof fn lemma_move_each_tidy(from: Seq<Entry>, to: Seq<Entry>, items: Seq<Entry>)
    requires
        tidy(from),
        tidy(to),
    ensures
        tidy(move_each(from, to, items).0),
        tidy(move_each(from, to, items).1),
        worth_of(move_each(from, to, items).0) + worth_of(move_each(from, to, items).1) == worth_of(
            from,
        ) + worth_of(to),
        forall|k: StuffModel| #[trigger]
            count_of(move_each(from, to, items).0, k) + count_of(move_each(from, to, items).1, k)
                == count_of(from, k) + count_of(to, k),
    decreases items.len(),
{
    if items.len() > 0 {
        lemma_move_each_tidy(from, to, items.drop_last());
        let before = move_each(from, to, items.drop_last());
        lemma_move_one(before.0, before.1, items.last().0, items.last().1);
        assert forall|k: StuffModel| #[trigger]
            count_of(move_each(from, to, items).0, k) + count_of(move_each(from, to, items).1, k)
                == count_of(from, k) + count_of(to, k) by {
            assert(count_of(before.0, k) + count_of(before.1, k) == count_of(from, k) + count_of(
                to,
                k,
            ));
        }
    }
}

/// The `j`-th item of a batch that was put in without a refusal can be taken
/// out again, which restores the contents before it.
pub proof fn lemma_put_back(e: Seq<Entry>, items: Seq<Entry>, j: int)
    requires
        tidy(e),
        0 < j <= items.len(),
        put_faults(e, items.take(j)).len() == 0,
    ensures
        put_faults(e, items.take(j - 1)).len() == 0,
        take_fault(contents(put_each(e, items.take(j))), items[j - 1].0, items[j - 1].1) is None,
        take_one(contents(put_each(e, items.take(j))), items[j - 1].0, items[j - 1].1) == contents(
            put_each(e, items.take(j - 1)),
        ),
{
    let before = put_each(e, items.take(j - 1));
    let (k, n) = items[j - 1];
    lemma_put_step(e, items, j - 1);
    lemma_put_each_tidy(e, items.take(j - 1));
    lemma_put_entry(before, k, n);
    lemma_count_nonneg(before, k);
    lemma_undo(before, k, n);
}

/// The `j`-th item of a batch that was taken out without a refusal can be
/// put back, which restores the contents before it.
pub proof fn lemma_take_back(e: Seq<Entry>, items: Seq<Entry>, j: int)
    requires
        tidy(e),
        0 < j <= items.len(),
        take_faults(e, items.take(j)).len() == 0,
    ensures
        take_faults(e, items.take(j - 1)).len() == 0,
        put_ok(contents(take_each(e, items.take(j))), items[j - 1].0, items[j - 1].1),
        put_one(contents(take_each(e, items.take(j))), items[j - 1].0, items[j - 1].1) == contents(
            take_each(e, items.take(j - 1)),
        ),
{
    let before = take_each(e, items.take(j - 1));
    let (k, n) = items[j - 1];
    lemma_take_step(e, items, j - 1);
    lemma_take_each_tidy(e, items.take(j - 1));
    lemma_take_entry(before, k, n);
    lemma_count_nonneg(before, k);
    lemma_undo(before, k, n);
    if n > 0 {
        lemma_count_present(before, slot(before, k));
    }
}

/// The `j`-th item of a batch that was moved without a refusal can be moved
/// back, which restores the contents of both ledgers before it.
pub proof fn lemma_move_back(from: Seq<Entry>, to: Seq<Entry>, items: Seq<Entry>, j: int)
    requires
        tidy(from),
        tidy(to),
        0 < j <= items.len(),
        move_faults(from, to, items.take(j)).len() == 0,
    ensures
        move_faults(from, to, items.take(j - 1)).len() == 0,
        move_result(
            contents(move_each(from, to, items.take(j)).1),
            contents(move_each(from, to, items.take(j)).0),
            items[j - 1].0,
            items[j - 1].1,
        ) is Ok,
        put_one(contents(move_each(from, to, items.take(j)).0), items[j - 1].0, items[j - 1].1)
            == contents(move_each(from, to, items.take(j - 1)).0),
        take_one(contents(move_each(from, to, items.take(j)).1), items[j - 1].0, items[j - 1].1)
            == contents(move_each(from, to, items.take(j - 1)).1),
{
    let before = move_each(from, to, items.take(j - 1));
    let (k, n) = items[j - 1];
    lemma_move_step(from, to, items, j - 1);
    lemma_move_each_tidy(from, to, items.take(j - 1));
    lemma_move_one(before.0, before.1, k, n);
    lemma_count_nonneg(before.0, k);
    lemma_count_nonneg(before.1, k);
    lemma_undo(before.0, k, n);
    lemma_undo(before.1, k, n);
}

impl MyBank {
    /// Takes out again the first `upto` items of a batch that were put in.
    fn undo_puts(&mut self, what: &Vec<(&StuffType, i32)>, upto: usize, Ghost(e): Ghost<Seq<Entry>>)
        requires
            upto <= what.len(),
            tidy(e),
            put_faults(e, batch_of(what@).take(upto as int)).len() == 0,
            old(self)@ == contents(put_each(e, batch_of(what@).take(upto as int))),
        ensures
            final(self)@ == contents(e),
            final(self).wf(),
    {
        let ghost items = batch_of(what@);
        let mut j: usize = upto;
        proof {
            use_type_invariant(&*self);
            assert(items.take(0) =~= Seq::<Entry>::empty());
        }
        while j > 0
            invariant
                0 <= j <= upto <= what.len(),
                items == batch_of(what@),
                tidy(e),
                self.wf(),
                put_faults(e, items.take(j as int)).len() == 0,
                self@ == contents(put_each(e, items.take(j as int))),
            decreases j,
        {
            proof {
                lemma_put_back(e, items, j as int);
            }
            j = j - 1;
            let (k, n) = what[j];
            assert(items[j as int] == (k@, n as int));
            let back = self.stuff_out(k, n);
        }
    }

    /// Puts back the first `upto` items of a batch that were taken out.
    fn undo_takes(&mut self, what: &Vec<(&StuffType, i32)>, upto: usize, Ghost(e): Ghost<Seq<Entry>>)
        requires
            upto <= what.len(),
            tidy(e),
            take_faults(e, batch_of(what@).take(upto as int)).len() == 0,
            old(self)@ == contents(take_each(e, batch_of(what@).take(upto as int))),
        ensures
            final(self)@ == contents(e),
            final(self).wf(),
    {
        let ghost items = batch_of(what@);
        let mut j: usize = upto;
        proof {
            use_type_invariant(&*self);
            assert(items.take(0) =~= Seq::<Entry>::empty());
        }
        while j > 0
            invariant
                0 <= j <= upto <= what.len(),
                items == batch_of(what@),
                tidy(e),
                self.wf(),
                take_faults(e, items.take(j as int)).len() == 0,
                self@ == contents(take_each(e, items.take(j as int))),
            decreases j,
        {
            proof {
                lemma_take_back(e, items, j as int);
            }
            j = j - 1;
            let (k, n) = what[j];
            assert(items[j as int] == (k@, n as int));
            let back = self.stuff_in(k, n);
        }
    }

    /// Moves back the first `upto` items of a batch that were moved to
    /// `destination`.
    fn undo_moves(
        &mut self,
        what: &Vec<(&StuffType, i32)>,
        upto: usize,
        destination: &mut MyBank,
        Ghost(from): Ghost<Seq<Entry>>,
        Ghost(to): Ghost<Seq<Entry>>,
    )
        requires
            upto <= what.len(),
            tidy(from),
            tidy(to),
            move_faults(from, to, batch_of(what@).take(upto as int)).len() == 0,
            old(self)@ == contents(move_each(from, to, batch_of(what@).take(upto as int)).0),
            old(destination)@ == contents(
                move_each(from, to, batch_of(what@).take(upto as int)).1,
            ),
        ensures
            final(self)@ == contents(from),
            final(destination)@ == contents(to),
            final(self).wf(),
            final(destination).wf(),
    {
        let ghost items = batch_of(what@);
        let mut j: usize = upto;
        proof {
            use_type_invariant(&*self);
            use_type_invariant(&*destination);
            assert(items.take(0) =~= Seq::<Entry>::empty());
        }
        while j > 0
            invariant
                0 <= j <= upto <= what.len(),
                items == batch_of(what@),
                tidy(from),
                tidy(to),
                self.wf(),
                destination.wf(),
                move_faults(from, to, items.take(j as int)).len() == 0,
                self@ == contents(move_each(from, to, items.take(j as int)).0),
                destination@ == contents(move_each(from, to, items.take(j as int)).1),
            decreases j,
        {
            proof {
                lemma_move_back(from, to, items, j as int);
            }
            j = j - 1;
            let (k, n) = what[j];
            assert(items[j as int] == (k@, n as int));
            let back = destination.stuff_transfer(k, n, self);
        }
    }
}

impl<'a> BankManager<Vec<(&'a StuffType, i32)>, bool, Vec<(usize, ErrorKind)>> for MyBank {
    /// Moves each item of the batch to `destination`, in order. An item moves
    /// as a single transfer would move it, or not at all. With `how_many`
    /// (all or nothing) set, the first item that cannot move ends the batch:
    /// the items moved before it are moved back, both ledgers hold what they
    /// held, and the report names that item. Without it, an item that cannot
    /// move is passed over, and the report names every such item.
    fn stuff_transfer(
        &mut self,
        what: &Vec<(&'a StuffType, i32)>,
        how_many: bool,
        destination: &mut MyBank,
    ) -> (r: Result<(), Vec<(usize, ErrorKind)>>)
        ensures
            final(self).wf(),
            final(destination).wf(),
            final(self).valuation() + final(destination).valuation()
                == old(self).valuation() + old(destination).valuation(),
            forall|k: StuffModel| #[trigger]
                final(self)@.counts[k] + final(destination)@.counts[k] == old(self)@.counts[k]
                    + old(destination)@.counts[k],
            r is Ok <==> move_faults(
                old(self).entries(),
                old(destination).entries(),
                batch_of(what@),
            ).len() == 0,
            r is Ok || !how_many ==> (final(self).entries(), final(destination).entries())
                == move_each(old(self).entries(), old(destination).entries(), batch_of(what@)),
            r is Err && how_many ==> final(self)@ == old(self)@
                && final(destination)@ == old(destination)@ && report_of(r->Err_0@) == move_faults(
                old(self).entries(),
                old(destination).entries(),
                batch_of(what@),
            ).take(1),
            r is Err && !how_many ==> report_of(r->Err_0@) == move_faults(
                old(self).entries(),
                old(destination).entries(),
                batch_of(what@),
            ),
    {
        let ghost a0 = self.entries();
        let ghost b0 = destination.entries();
        let ghost items = batch_of(what@);
        let mut report: Vec<(usize, ErrorKind)> = Vec::new();
        let mut i: usize = 0;
        proof {
            use_type_invariant(&*self);
            use_type_invariant(&*destination);
            assert(items.take(0) =~= Seq::<Entry>::empty());
            assert(report_of(report@) =~= Seq::<Fault>::empty());
        }
        while i < what.len()
            invariant
                0 <= i <= what.len(),
                items == batch_of(what@),
                a0 == old(self).entries(),
                b0 == old(destination).entries(),
                tidy(a0),
                tidy(b0),
                self.wf(),
                destination.wf(),
                (self.entries(), destination.entries()) == move_each(a0, b0, items.take(i as int)),
                report_of(report@) == move_faults(a0, b0, items.take(i as int)),
                how_many ==> report@.len() == 0,
            decreases what.len() - i,
        {
            let (k, n) = what[i];
            proof {
                assert(items[i as int] == (k@, n as int));
                lemma_move_step(a0, b0, items, i as int);
            }
            match self.stuff_transfer(k, n, destination) {
                Ok(()) => {},
                Err(kind) => {
                    let ghost before = report@;
                    report.push((i, kind));
                    proof {
                        assert(report@.drop_last() =~= before);
                        assert(report_of(report@) =~= report_of(before).push((i as int, kind)));
                    }
                    if how_many {
                        proof {
                            lemma_move_faults_prefix(a0, b0, items, i + 1);
                            assert(report_of(report@) =~= move_faults(a0, b0, items).take(1));
                        }
                        self.undo_moves(what, i, destination, Ghost(a0), Ghost(b0));
                        return Err(report);
                    }
                },
            }
            i = i + 1;
        }
        proof {
            assert(items.take(what.len() as int) =~= items);
            lemma_move_each_tidy(a0, b0, items);
        }
        if report.len() == 0 {
            Ok(())
        } else {
            Err(report)
        }
    }

    /// Puts each item of the batch into the ledger, in order. With `how_many`
    /// (all or nothing) set, the first item that cannot be put in ends the
    /// batch: the items put in before it are taken out again, the ledger
    /// holds what it held, and the report names that item. Without it, an
    /// item that cannot be put in is passed over, and the report names every
    /// such item.
    fn stuff_in(&mut self, what: &Vec<(&'a StuffType, i32)>, how_many: bool) -> (r: Result<
        (),
        Vec<(usize, ErrorKind)>,
    >)
        ensures
            final(self).wf(),
            r is Ok <==> put_faults(old(self).entries(), batch_of(what@)).len() == 0,
            r is Ok || !how_many ==> final(self).entries() == put_each(
                old(self).entries(),
                batch_of(what@),
            ),
            r is Err && how_many ==> final(self)@ == old(self)@ && report_of(r->Err_0@)
                == put_faults(old(self).entries(), batch_of(what@)).take(1),
            r is Err && !how_many ==> report_of(r->Err_0@) == put_faults(
                old(self).entries(),
                batch_of(what@),
            ),
    {
        let ghost a0 = self.entries();
        let ghost items = batch_of(what@);
        let mut report: Vec<(usize, ErrorKind)> = Vec::new();
        let mut i: usize = 0;
        proof {
            use_type_invariant(&*self);
            assert(items.take(0) =~= Seq::<Entry>::empty());
            assert(report_of(report@) =~= Seq::<Fault>::empty());
        }
        while i < what.len()
            invariant
                0 <= i <= what.len(),
                items == batch_of(what@),
                a0 == old(self).entries(),
                tidy(a0),
                self.wf(),
                self.entries() == put_each(a0, items.take(i as int)),
                report_of(report@) == put_faults(a0, items.take(i as int)),
                how_many ==> report@.len() == 0,
            decreases what.len() - i,
        {
            let (k, n) = what[i];
            proof {
                assert(items[i as int] == (k@, n as int));
                lemma_put_step(a0, items, i as int);
            }
            match self.stuff_in(k, n) {
                Ok(()) => {},
                Err(kind) => {
                    let ghost before = report@;
                    report.push((i, kind));
                    proof {
                        assert(report@.drop_last() =~= before);
                        assert(report_of(report@) =~= report_of(before).push((i as int, kind)));
                    }
                    if how_many {
                        proof {
                            lemma_put_faults_prefix(a0, items, i + 1);
                            assert(report_of(report@) =~= put_faults(a0, items).take(1));
                        }
                        self.undo_puts(what, i, Ghost(a0));
                        return Err(report);
                    }
                },
            }
            i = i + 1;
        }
        proof {
            assert(items.take(what.len() as int) =~= items);
        }
        if report.len() == 0 {
            Ok(())
        } else {
            Err(report)
        }
    }

    /// Takes each item of the batch out of the ledger, in order. With
    /// `how_many` (all or nothing) set, the first item that cannot be taken
    /// ends the batch: the items taken before it are put back, the ledger
    /// holds what it held, and the report names that item. Without it, an
    /// item that cannot be taken is passed over, and the report names every
    /// such item.
    fn stuff_out(&mut self, what: &Vec<(&'a StuffType, i32)>, how_many: bool) -> (r: Result<
        (),
        Vec<(usize, ErrorKind)>,
    >)
        ensures
            final(self).wf(),
            r is Ok <==> take_faults(old(self).entries(), batch_of(what@)).len() == 0,
            r is Ok || !how_many ==> final(self).entries() == take_each(
                old(self).entries(),
                batch_of(what@),
            ),
            r is Err && how_many ==> final(self)@ == old(self)@ && report_of(r->Err_0@)
                == take_faults(old(self).entries(), batch_of(what@)).take(1),
            r is Err && !how_many ==> report_of(r->Err_0@) == take_faults(
                old(self).entries(),
                batch_of(what@),
            ),
    {
        let ghost a0 = self.entries();
        let ghost items = batch_of(what@);
        let mut report: Vec<(usize, ErrorKind)> = Vec::new();
        let mut i: usize = 0;
        proof {
            use_type_invariant(&*self);
            assert(items.take(0) =~= Seq::<Entry>::empty());
            assert(report_of(report@) =~= Seq::<Fault>::empty());
        }
        while i < what.len()
            invariant
                0 <= i <= what.len(),
                items == batch_of(what@),
                a0 == old(self).entries(),
                tidy(a0),
                self.wf(),
                self.entries() == take_each(a0, items.take(i as int)),
                report_of(report@) == take_faults(a0, items.take(i as int)),
                how_many ==> report@.len() == 0,
            decreases what.len() - i,
        {
            let (k, n) = what[i];
            proof {
                assert(items[i as int] == (k@, n as int));
                lemma_take_step(a0, items, i as int);
            }
            match self.stuff_out(k, n) {
                Ok(()) => {},
                Err(kind) => {
                    let ghost before = report@;
                    report.push((i, kind));
                    proof {
                        assert(report@.drop_last() =~= before);
                        assert(report_of(report@) =~= report_of(before).push((i as int, kind)));
                    }
                    if how_many {
                        proof {
                            lemma_take_faults_prefix(a0, items, i + 1);
                            assert(report_of(report@) =~= take_faults(a0, items).take(1));
                        }
                        self.undo_takes(what, i, Ghost(a0));
                        return Err(report);
                    }
                },
            }
            i = i + 1;
        }
        proof {
            assert(items.take(what.len() as int) =~= items);
        }
        if report.len() == 0 {
            Ok(())
        } else {
            Err(report)
        }
    }
}

} // verus!
