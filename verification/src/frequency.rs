//! The frequency table: how many cells took each palette name, in the order of the names.

use vstd::prelude::*;
use vstd::string::StrSliceExecFns;
use crate::palette::PaletteEntry;
use crate::quantize::total;

verus! {

/// Whether `a` comes before `b` from position `i` on, given that they agree before `i`.
pub open spec fn before_from(a: Seq<char>, b: Seq<char>, i: int) -> bool
    decreases a.len() - i,
{
    if i >= b.len() {
        false
    } else if i >= a.len() {
        true
    } else if a[i] != b[i] {
        (a[i] as u32) < (b[i] as u32)
    } else {
        before_from(a, b, i + 1)
    }
}

/// The order of names: character by character by code point, a proper prefix first.
pub open spec fn name_before(a: Seq<char>, b: Seq<char>) -> bool {
    before_from(a, b, 0)
}

proof fn lemma_before_from_self(a: Seq<char>, i: int)
    requires
        0 <= i,
    ensures
        !before_from(a, a, i),
    decreases a.len() - i,
{
    if i < a.len() {
        lemma_before_from_self(a, i + 1);
    }
}

proof fn lemma_before_from_chain(a: Seq<char>, b: Seq<char>, c: Seq<char>, i: int)
    requires
        0 <= i,
        before_from(a, b, i),
        before_from(b, c, i),
    ensures
        before_from(a, c, i),
    decreases a.len() - i,
{
    if i < a.len() && a[i] == b[i] && b[i] == c[i] {
        lemma_before_from_chain(a, b, c, i + 1);
    }
}

proof fn lemma_before_from_either(a: Seq<char>, b: Seq<char>, i: int)
    requires
        0 <= i <= a.len(),
        i <= b.len(),
        forall|j: int| 0 <= j < i ==> a[j] == b[j],
    ensures
        a == b || before_from(a, b, i) || before_from(b, a, i),
    decreases a.len() - i,
{
    if i < a.len() && i < b.len() {
        if a[i] == b[i] {
            lemma_before_from_either(a, b, i + 1);
        } else {
            vstd::utf8::char_u32_cast(a[i], a[i] as u32);
            vstd::utf8::char_u32_cast(b[i], b[i] as u32);
        }
    } else if i == a.len() && i == b.len() {
        assert(a =~= b);
    }
}

/// The order of names is strict and total: no name comes before itself, of two
/// different names one comes before the other, and the order passes along a chain.
pub proof fn lemma_name_order(a: Seq<char>, b: Seq<char>, c: Seq<char>)
    ensures
        !name_before(a, a),
        a == b || name_before(a, b) || name_before(b, a),
        !(name_before(a, b) && name_before(b, a)),
        name_before(a, b) && name_before(b, c) ==> name_before(a, c),
{
    lemma_before_from_self(a, 0);
    lemma_before_from_either(a, b, 0);
    if name_before(a, b) && name_before(b, a) {
        lemma_before_from_chain(a, b, a, 0);
    }
    if name_before(a, b) && name_before(b, c) {
        lemma_before_from_chain(a, b, c, 0);
    }
}

/// Whether name `a` comes before name `b`.
pub fn name_less(a: &str, b: &str) -> (less: bool)
    ensures
        less == name_before(a@, b@),
{
    let n = a.unicode_len();
    let m = b.unicode_len();
    let mut i: usize = 0;
    while i < n && i < m
        invariant
            i <= n,
            i <= m,
            n == a@.len(),
            m == b@.len(),
            name_before(a@, b@) == before_from(a@, b@, i as int),
        decreases n - i,
    {
        let x = a.get_char(i);
        let y = b.get_char(i);
        if x != y {
            return (x as u32) < (y as u32);
        }
        i += 1;
    }
    i < m
}

/// One line of the frequency table.
#[derive(Clone, Debug, PartialEq, Eq)]
pub struct FrequencyEntry {
    pub name: String,
    pub count: u64,
}

/// The counts of a run of cells by palette name. A name stands in the table only if a
/// cell took it, and the lines follow the order of the names.
#[derive(Clone, Debug, PartialEq, Eq)]
pub struct FrequencyTable {
    pub entries: Vec<FrequencyEntry>,
}

/// The count that `entries` hold for `name`.
pub open spec fn count_in(entries: Seq<FrequencyEntry>, name: Seq<char>) -> nat
    decreases entries.len(),
{
    if entries.len() == 0 {
        0
    } else {
        count_in(entries.drop_last(), name) + if entries.last().name@ == name {
            entries.last().count as nat
        } else {
            0nat
        }
    }
}

/// The sum of all counts of `entries`.
pub open spec fn sum_of(entries: Seq<FrequencyEntry>) -> nat
    decreases entries.len(),
{
    if entries.len() == 0 {
        0
    } else {
        sum_of(entries.drop_last()) + entries.last().count as nat
    }
}

/// The names of `entries` rise strictly.
pub open spec fn sorted(entries: Seq<FrequencyEntry>) -> bool {
    forall|i: int, j: int|
        0 <= i < j < entries.len() ==> name_before(
            #[trigger] entries[i].name@,
            #[trigger] entries[j].name@,
        )
}

/// The total over the palette entries called `name` of their counts in `tally`.
pub open spec fn named_total(palette: Seq<PaletteEntry>, tally: Seq<u64>, name: Seq<char>) -> nat
    decreases palette.len(),
{
    if palette.len() == 0 {
        0
    } else {
        named_total(palette.drop_last(), tally, name) + if palette.last().name@ == name {
            tally[palette.len() - 1] as nat
        } else {
            0nat
        }
    }
}

proof fn lemma_entry_within_sum(entries: Seq<FrequencyEntry>, p: int)
    requires
        0 <= p < entries.len(),
    ensures
        entries[p].count <= sum_of(entries),
    decreases entries.len(),
{
    if p < entries.len() - 1 {
        lemma_entry_within_sum(entries.drop_last(), p);
    }
}

proof fn lemma_absent(entries: Seq<FrequencyEntry>, name: Seq<char>)
    requires
        forall|i: int| 0 <= i < entries.len() ==> entries[i].name@ != name,
    ensures
        count_in(entries, name) == 0,
    decreases entries.len(),
{
    if entries.len() > 0 {
        lemma_absent(entries.drop_last(), name);
    }
}

proof fn lemma_present(entries: Seq<FrequencyEntry>, p: int)
    requires
        0 <= p < entries.len(),
        forall|i: int| 0 <= i < entries.len() && i != p ==> entries[i].name@ != entries[p].name@,
    ensures
        count_in(entries, entries[p].name@) == entries[p].count,
    decreases entries.len(),
{
    if p == entries.len() - 1 {
        lemma_absent(entries.drop_last(), entries[p].name@);
    } else {
        lemma_present(entries.drop_last(), p);
    }
}

proof fn lemma_replaced(entries: Seq<FrequencyEntry>, p: int, entry: FrequencyEntry, name: Seq<char>)
    requires
        0 <= p < entries.len(),
        entry.name@ == entries[p].name@,
    ensures
        count_in(entries.update(p, entry), name) == count_in(entries, name) + if name
            == entry.name@ {
            entry.count - entries[p].count
        } else {
            0
        },
        sum_of(entries.update(p, entry)) == sum_of(entries) + entry.count - entries[p].count,
    decreases entries.len(),
{
    let changed = entries.update(p, entry);
    if p == entries.len() - 1 {
        assert(changed.drop_last() =~= entries.drop_last());
    } else {
        assert(changed.drop_last() =~= entries.drop_last().update(p, entry));
        lemma_replaced(entries.drop_last(), p, entry, name);
    }
}

proof fn lemma_inserted(entries: Seq<FrequencyEntry>, p: int, entry: FrequencyEntry, name: Seq<char>)
    requires
        0 <= p <= entries.len(),
    ensures
        count_in(entries.insert(p, entry), name) == count_in(entries, name) + if name
            == entry.name@ {
            entry.count as nat
        } else {
            0nat
        },
        sum_of(entries.insert(p, entry)) == sum_of(entries) + entry.count,
    decreases entries.len(),
{
    let grown = entries.insert(p, entry);
    if p == entries.len() {
        assert(grown.drop_last() =~= entries);
    } else {
        assert(grown.drop_last() =~= entries.drop_last().insert(p, entry));
        assert(grown.last() == entries.last());
        lemma_inserted(entries.drop_last(), p, entry, name);
    }
}

impl FrequencyTable {
    /// The names rise strictly and no count is zero.
    pub open spec fn wf(&self) -> bool {
        &&& sorted(self.entries@)
        &&& forall|i: int| 0 <= i < self.entries@.len() ==> (#[trigger] self.entries@[i]).count > 0
    }

    /// The count for `name`; zero for a name that is not in the table.
    pub open spec fn count_of(&self, name: Seq<char>) -> nat {
        count_in(self.entries@, name)
    }

    /// The sum of all counts.
    pub open spec fn sum(&self) -> nat {
        sum_of(self.entries@)
    }

    /// The table without a line.
    pub fn new() -> (table: FrequencyTable)
        ensures
            table.wf(),
            table.entries@.len() == 0,
            table.sum() == 0,
            forall|name: Seq<char>| #[trigger] table.count_of(name) == 0,
    {
        FrequencyTable { entries: Vec::new() }
    }

    /// Adds `amount` to the count of `name`; a name that was not in the table gets its
    /// line at its place in the order.
    pub fn add(&mut self, name: &str, amount: u64)
        requires
            old(self).wf(),
            amount > 0,
            old(self).sum() + amount <= u64::MAX,
        ensures
            final(self).wf(),
            final(self).sum() == old(self).sum() + amount,
            forall|other: Seq<char>|
                #[trigger] final(self).count_of(other) == old(self).count_of(other) + if other
                    == name@ {
                    amount as nat
                } else {
                    0nat
                },
    {
        let ghost before = self.entries@;
        let mut p: usize = 0;
        while p < self.entries.len() && name_less(self.entries[p].name.as_str(), name)
            invariant
                p <= self.entries@.len(),
                self.entries@ == before,
                forall|i: int| 0 <= i < p ==> name_before(#[trigger] before[i].name@, name@),
            decreases self.entries@.len() - p,
        {
            p += 1;
        }
        if p < self.entries.len() && !name_less(name, self.entries[p].name.as_str()) {
            let count = self.entries[p].count;
            proof {
                lemma_name_order(name@, before[p as int].name@, name@);
                lemma_entry_within_sum(before, p as int);
            }
            let entry = FrequencyEntry { name: name.to_owned(), count: count + amount };
            self.entries.set(p, entry);
            proof {
                assert forall|other: Seq<char>| #[trigger]
                    self.count_of(other) == count_in(before, other) + if other == name@ {
                        amount as nat
                    } else {
                        0nat
                    } by {
                    lemma_replaced(before, p as int, entry, other);
                }
                lemma_replaced(before, p as int, entry, name@);
                assert forall|i: int, j: int| 0 <= i < j < self.entries@.len() implies name_before(
                    #[trigger] self.entries@[i].name@,
                    #[trigger] self.entries@[j].name@,
                ) by {
                    assert(self.entries@[i].name@ == before[i].name@);
                    assert(self.entries@[j].name@ == before[j].name@);
                }
            }
        } else {
            let entry = FrequencyEntry { name: name.to_owned(), count: amount };
            self.entries.insert(p, entry);
            proof {
                assert forall|other: Seq<char>| #[trigger]
                    self.count_of(other) == count_in(before, other) + if other == name@ {
                        amount as nat
                    } else {
                        0nat
                    } by {
                    lemma_inserted(before, p as int, entry, other);
                }
                lemma_inserted(before, p as int, entry, name@);
                assert forall|i: int, j: int| 0 <= i < j < self.entries@.len() implies name_before(
                    #[trigger] self.entries@[i].name@,
                    #[trigger] self.entries@[j].name@,
                ) by {
                    if j == p {
                        assert(self.entries@[i] == before[i]);
                    } else if i == p {
                        assert(self.entries@[j] == before[j - 1]);
                        lemma_name_order(name@, before[p as int].name@, before[j - 1].name@);
                        if j - 1 > p {
                            assert(name_before(before[p as int].name@, before[j - 1].name@));
                        }
                    } else {
                        let bi = if i < p {
                            i
                        } else {
                            i - 1
                        };
                        let bj = if j < p {
                            j
                        } else {
                            j - 1
                        };
                        assert(self.entries@[i] == before[bi]);
                        assert(self.entries@[j] == before[bj]);
                    }
                }
                assert forall|i: int| 0 <= i < self.entries@.len() implies (
                #[trigger] self.entries@[i]).count > 0 by {
                    if i < p {
                        assert(self.entries@[i] == before[i]);
                    } else if i > p {
                        assert(self.entries@[i] == before[i - 1]);
                    }
                }
            }
        }
    }

    /// The count for `name`; zero for a name that is not in the table.
    pub fn get(&self, name: &str) -> (count: u64)
        requires
            self.wf(),
        ensures
            count == self.count_of(name@),
    {
        let mut i: usize = 0;
        while i < self.entries.len()
            invariant
                i <= self.entries@.len(),
                self.wf(),
                forall|j: int| 0 <= j < i ==> (#[trigger] self.entries@[j]).name@ != name@,
            decreases self.entries@.len() - i,
        {
            let here = self.entries[i].name.as_str();
            if !name_less(here, name) && !name_less(name, here) {
                proof {
                    lemma_name_order(here@, name@, here@);
                    assert forall|j: int| 0 <= j < self.entries@.len() && j != i implies self.entries@[j].name@
                        != self.entries@[i as int].name@ by {
                        lemma_name_order(self.entries@[j].name@, self.entries@[i as int].name@, name@);
                        if j < i {
                            assert(name_before(
                                self.entries@[j].name@,
                                self.entries@[i as int].name@,
                            ));
                        } else {
                            assert(name_before(
                                self.entries@[i as int].name@,
                                self.entries@[j].name@,
                            ));
                        }
                    }
                    lemma_present(self.entries@, i as int);
                }
                return self.entries[i].count;
            }
            proof {
                lemma_name_order(name@, name@, name@);
            }
            i += 1;
        }
        proof {
            lemma_absent(self.entries@, name@);
        }
        0
    }

    /// The sum of all counts.
    pub fn total(&self) -> (all: u64)
        requires
            self.sum() <= u64::MAX,
        ensures
            all == self.sum(),
    {
        let mut all: u64 = 0;
        let mut i: usize = 0;
        while i < self.entries.len()
            invariant
                i <= self.entries@.len(),
                all == sum_of(self.entries@.take(i as int)),
                self.sum() <= u64::MAX,
            decreases self.entries@.len() - i,
        {
            proof {
                assert(self.entries@.take(i + 1).drop_last() =~= self.entries@.take(i as int));
                lemma_sum_of_take(self.entries@, i + 1);
            }
            all = all + self.entries[i].count;
            i += 1;
        }
        proof {
            assert(self.entries@.take(i as int) =~= self.entries@);
        }
        all
    }
}

proof fn lemma_sum_of_take(entries: Seq<FrequencyEntry>, n: int)
    requires
        0 <= n <= entries.len(),
    ensures
        sum_of(entries.take(n)) <= sum_of(entries),
    decreases entries.len(),
{
    if n < entries.len() {
        assert(entries.drop_last().take(n) =~= entries.take(n));
        lemma_sum_of_take(entries.drop_last(), n);
    } else {
        assert(entries.take(n) =~= entries);
    }
}

proof fn lemma_total_take(counts: Seq<u64>, n: int)
    requires
        0 <= n <= counts.len(),
    ensures
        total(counts.take(n)) <= total(counts),
    decreases counts.len(),
{
    if n < counts.len() {
        assert(counts.drop_last().take(n) =~= counts.take(n));
        lemma_total_take(counts.drop_last(), n);
    } else {
        assert(counts.take(n) =~= counts);
    }
}

proof fn lemma_named_total_step(palette: Seq<PaletteEntry>, tally: Seq<u64>, name: Seq<char>, i: int)
    requires
        0 <= i < palette.len(),
    ensures
        named_total(palette.take(i + 1), tally, name) == named_total(palette.take(i), tally, name)
            + if palette[i].name@ == name {
            tally[i] as nat
        } else {
            0nat
        },
{
    assert(palette.take(i + 1).drop_last() =~= palette.take(i));
}

/// The frequency table of a palette and the number of cells that took each of its
/// entries: entries of one name are added up, and entries that no cell took leave no
/// line.
pub fn tabulate(palette: &Vec<PaletteEntry>, tally: &Vec<u64>) -> (table: FrequencyTable)
    requires
        tally@.len() == palette@.len(),
        total(tally@) <= u64::MAX,
    ensures
        table.wf(),
        table.sum() == total(tally@),
        forall|name: Seq<char>| #[trigger]
            table.count_of(name) == named_total(palette@, tally@, name),
{
    let mut table = FrequencyTable::new();
    let mut i: usize = 0;
    while i < palette.len()
        invariant
            i <= palette@.len(),
            tally@.len() == palette@.len(),
            total(tally@) <= u64::MAX,
            table.wf(),
            table.sum() == total(tally@.take(i as int)),
            forall|name: Seq<char>| #[trigger]
                table.count_of(name) == named_total(palette@.take(i as int), tally@, name),
        decreases palette@.len() - i,
    {
        let ghost earlier = table;
        proof {
            assert(tally@.take(i + 1).drop_last() =~= tally@.take(i as int));
            lemma_total_take(tally@, i + 1);
            assert forall|name: Seq<char>| #[trigger]
                named_total(palette@.take(i + 1), tally@, name) == named_total(
                    palette@.take(i as int),
                    tally@,
                    name,
                ) + if palette@[i as int].name@ == name {
                    tally@[i as int] as nat
                } else {
                    0nat
                } by {
                lemma_named_total_step(palette@, tally@, name, i as int);
            }
        }
        if tally[i] > 0 {
            table.add(palette[i].name.as_str(), tally[i]);
        }
        proof {
            assert forall|name: Seq<char>| #[trigger]
                table.count_of(name) == named_total(palette@.take(i + 1), tally@, name) by {
                assert(earlier.count_of(name) == named_total(palette@.take(i as int), tally@, name));
                lemma_named_total_step(palette@, tally@, name, i as int);
            }
        }
        i += 1;
    }
    proof {
        assert(tally@.take(i as int) =~= tally@);
        assert(palette@.take(i as int) =~= palette@);
    }
    table
}

} // verus!
