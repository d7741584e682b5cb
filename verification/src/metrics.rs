//! Observability: per-core counters, each alone on its cache line, and the
//! text report that the pull endpoint serves.
use vstd::prelude::*;
use crate::layout::CachePadded;
use crate::text;

verus! {

/// A fixed set of named counters.
pub struct CounterSet {
    /// One padded counter per name.
    pub counters: Vec<CachePadded<u64>>,
    /// The counter names, in the same order.
    pub names: Vec<&'static str>,
}

impl CounterSet {
    /// One counter per name.
    pub open spec fn wf(&self) -> bool {
        self.counters@.len() == self.names@.len()
    }

    /// The counter values.
    pub open spec fn values(&self) -> Seq<u64> {
        self.counters@.map_values(|c: CachePadded<u64>| c.value)
    }

    /// A fresh set with the given names, all counters zero.
    pub fn new(names: &[&'static str]) -> (s: Self)
        ensures
            s.wf(),
            s.names@ == names@,
            s.values() == Seq::new(names@.len(), |i: int| 0u64),
    {
        let mut counters: Vec<CachePadded<u64>> = Vec::new();
        let mut copied: Vec<&'static str> = Vec::new();
        let mut i: usize = 0;
        while i < names.len()
            invariant
                i <= names@.len(),
                copied@ == names@.take(i as int),
                counters@.len() == i,
                forall|j: int| 0 <= j < i ==> (#[trigger] counters@[j]).value == 0,
            decreases names@.len() - i,
        {
            counters.push(CachePadded::new(0));
            copied.push(names[i]);
            i += 1;
            assert(names@.take(i as int) =~= names@.take(i - 1).push(names@[i - 1]));
        }
        assert(names@.take(i as int) =~= names@);
        let s = CounterSet { counters, names: copied };
        assert(s.values() =~= Seq::new(names@.len(), |j: int| 0u64));
        s
    }

    /// Add `v` to counter `i`; the counter wraps.
    pub fn add(&mut self, i: usize, v: u64)
        requires
            old(self).wf(),
            i < old(self).names@.len(),
        ensures
            final(self).wf(),
            final(self).names == old(self).names,
            final(self).values() == old(self).values().update(
                i as int,
                ((old(self).values()[i as int] + v) % 0x1_0000_0000_0000_0000) as u64,
            ),
    {
        let now: u64 = self.counters[i].value;
        self.set(i, now.wrapping_add(v));
    }

    /// Store a value into counter `i`.
    pub fn set(&mut self, i: usize, v: u64)
        requires
            old(self).wf(),
            i < old(self).names@.len(),
        ensures
            final(self).wf(),
            final(self).names == old(self).names,
            final(self).values() == old(self).values().update(i as int, v),
    {
        let ghost before = self.values();
        self.counters.set(i, CachePadded::new(v));
        assert(self.values() =~= before.update(i as int, v));
    }

    /// Copy all counters into `out`, which has one place per counter.
    pub fn snapshot(&self, out: &mut [u64])
        requires
            self.wf(),
            old(out)@.len() == self.names@.len(),
        ensures
            final(out)@ == self.values(),
    {
        let n: usize = self.counters.len();
        let mut i: usize = 0;
        while i < n
            invariant
                i <= n,
                n == self.counters@.len(),
                out@.len() == n,
                forall|j: int| 0 <= j < i ==> #[trigger] out@[j] == self.values()[j],
            decreases n - i,
        {
            out[i] = self.counters[i].value;
            i += 1;
        }
        assert(out@ =~= self.values());
    }

    /// The value of counter `i`.
    pub fn load(&self, i: usize) -> (r: u64)
        requires
            self.wf(),
            i < self.names@.len(),
        ensures
            r == self.values()[i as int],
    {
        self.counters[i].value
    }

    /// The counter names, in index order.
    pub fn names(&self) -> (r: &[&'static str])
        ensures
            r@ == self.names@,
    {
        self.names.as_slice()
    }
}

/// Append the decimal digits of `v`.
pub fn push_num(out: &mut String, v: u64)
    ensures
        final(out)@ == old(out)@ + text::decimal(v as nat),
{
    text::push_num(out, v);
}

// ---------------------------------------------------------------------
// Report text
// ---------------------------------------------------------------------

/// Each name with a space behind it.
pub open spec fn names_text(names: Seq<&'static str>) -> Seq<char>
    decreases names.len(),
{
    if names.len() == 0 {
        Seq::empty()
    } else {
        names_text(names.drop_last()) + names.last()@ + " "@
    }
}

/// Counter `j` summed over the first `n` cores.
pub open spec fn total(sets: Seq<CounterSet>, j: int, n: int) -> nat
    decreases n,
{
    if n <= 0 {
        0
    } else {
        total(sets, j, n - 1) + sets[n - 1].values()[j] as nat
    }
}

/// The total that a report shows: the sum in 64 bits.
pub open spec fn shown_total(sets: Seq<CounterSet>, j: int) -> nat {
    total(sets, j, sets.len() as int) % 0x1_0000_0000_0000_0000
}

/// The `.total` lines of the first `j` counters.
pub open spec fn totals_text(
    sets: Seq<CounterSet>,
    names: Seq<&'static str>,
    j: int,
) -> Seq<char>
    decreases j,
{
    if j <= 0 {
        Seq::empty()
    } else {
        totals_text(sets, names, j - 1) + names[j - 1]@ + ".total "@ + text::decimal(
            shown_total(sets, j - 1),
        ) + "\n"@
    }
}

/// The lines of the first `j` counters of core `i`.
pub open spec fn core_text(
    set: CounterSet,
    i: int,
    names: Seq<&'static str>,
    j: int,
) -> Seq<char>
    decreases j,
{
    if j <= 0 {
        Seq::empty()
    } else {
        core_text(set, i, names, j - 1) + "core."@ + text::decimal(i as nat) + "."@ + names[j
            - 1]@ + " "@ + text::decimal(set.values()[j - 1] as nat) + "\n"@
    }
}

/// The lines of the first `i` cores.
pub open spec fn cores_text(
    sets: Seq<CounterSet>,
    names: Seq<&'static str>,
    i: int,
) -> Seq<char>
    decreases i,
{
    if i <= 0 {
        Seq::empty()
    } else {
        cores_text(sets, names, i - 1) + core_text(sets[i - 1], i - 1, names, names.len() as int)
    }
}

/// One counter kind: a `.total` line summed across cores, then a
/// `core.<i>.<name>` line per core.
pub open spec fn kind_text(sets: Seq<CounterSet>) -> Seq<char> {
    if sets.len() == 0 {
        Seq::empty()
    } else {
        let names = sets[0].names@;
        totals_text(sets, names, names.len() as int) + cores_text(sets, names, sets.len() as int)
    }
}

/// Every set has the counters of the first.
pub open spec fn same_counters(sets: Seq<CounterSet>) -> bool {
    forall|i: int|
        0 <= i < sets.len() ==> (#[trigger] sets[i]).wf() && sets[i].names@.len()
            == sets[0].names@.len()
}

fn sum_counter(sets: &Vec<CounterSet>, j: usize) -> (r: u64)
    requires
        same_counters(sets@),
        sets@.len() > 0 ==> j < sets@[0].names@.len(),
    ensures
        r == shown_total(sets@, j as int),
{
    let mut sum: u64 = 0;
    let mut i: usize = 0;
    while i < sets.len()
        invariant
            i <= sets@.len(),
            same_counters(sets@),
            sets@.len() > 0 ==> j < sets@[0].names@.len(),
            sum == total(sets@, j as int, i as int) % 0x1_0000_0000_0000_0000,
        decreases sets@.len() - i,
    {
        proof {
            assert(sets@[i as int].wf());
            vstd::arithmetic::div_mod::lemma_add_mod_noop(
                total(sets@, j as int, i as int) as int,
                sets@[i as int].values()[j as int] as int,
                0x1_0000_0000_0000_0000,
            );
            vstd::arithmetic::div_mod::lemma_small_mod(
                sets@[i as int].values()[j as int] as nat,
                0x1_0000_0000_0000_0000,
            );
        }
        sum = sum.wrapping_add(sets[i].load(j));
        i += 1;
    }
    sum
}

fn write_core(out: &mut String, set: &CounterSet, i: usize, names: &[&'static str])
    requires
        set.wf(),
        set.names@.len() == names@.len(),
    ensures
        final(out)@ == old(out)@ + core_text(*set, i as int, names@, names@.len() as int),
{
    let ghost start = out@;
    let mut j: usize = 0;
    assert(out@ =~= start + core_text(*set, i as int, names@, 0));
    while j < names.len()
        invariant
            j <= names@.len(),
            set.wf(),
            set.names@.len() == names@.len(),
            out@ == start + core_text(*set, i as int, names@, j as int),
        decreases names@.len() - j,
    {
        out.append("core.");
        push_num(out, i as u64);
        out.append(".");
        out.append(names[j]);
        out.append(" ");
        push_num(out, set.load(j));
        out.append("\n");
        j += 1;
        assert(out@ =~= start + core_text(*set, i as int, names@, j as int));
    }
}

/// Append the lines of one counter kind.
fn write_kind(out: &mut String, sets: &Vec<CounterSet>)
    requires
        same_counters(sets@),
    ensures
        final(out)@ == old(out)@ + kind_text(sets@),
{
    if sets.len() == 0 {
        assert(out@ + kind_text(sets@) =~= out@);
        return;
    }
    let ghost start = out@;
    let names = sets[0].names();
    let mut j: usize = 0;
    assert(out@ =~= start + totals_text(sets@, names@, 0));
    while j < names.len()
        invariant
            j <= names@.len(),
            sets@.len() > 0,
            names@ == sets@[0].names@,
            same_counters(sets@),
            out@ == start + totals_text(sets@, names@, j as int),
        decreases names@.len() - j,
    {
        let sum: u64 = sum_counter(sets, j);
        out.append(names[j]);
        out.append(".total ");
        push_num(out, sum);
        out.append("\n");
        j += 1;
        assert(out@ =~= start + totals_text(sets@, names@, j as int));
    }
    let ghost middle = out@;
    let mut i: usize = 0;
    assert(out@ =~= middle + cores_text(sets@, names@, 0));
    while i < sets.len()
        invariant
            i <= sets@.len(),
            sets@.len() > 0,
            names@ == sets@[0].names@,
            same_counters(sets@),
            out@ == middle + cores_text(sets@, names@, i as int),
        decreases sets@.len() - i,
    {
        assert(sets@[i as int].wf());
        write_core(out, &sets[i], i, names);
        i += 1;
        assert(out@ =~= middle + cores_text(sets@, names@, i as int));
    }
    assert(out@ =~= start + kind_text(sets@));
}

fn write_names(out: &mut String, names: &[&'static str])
    ensures
        final(out)@ == old(out)@ + names_text(names@),
{
    let ghost start = out@;
    let mut j: usize = 0;
    assert(out@ =~= start + names_text(names@.take(0)));
    while j < names.len()
        invariant
            j <= names@.len(),
            out@ == start + names_text(names@.take(j as int)),
        decreases names@.len() - j,
    {
        out.append(names[j]);
        out.append(" ");
        proof {
            assert(names@.take(j + 1).drop_last() =~= names@.take(j as int));
            assert(out@ =~= start + names_text(names@.take(j + 1)));
        }
        j += 1;
    }
    assert(names@.take(j as int) =~= names@);
}

// ---------------------------------------------------------------------
// The engine's metrics
// ---------------------------------------------------------------------

/// The engine-wide metrics: per-core counters for packets, bytes and drops.
pub struct Metrics {
    pub packets: Vec<CounterSet>,
    pub bytes: Vec<CounterSet>,
    pub drops: Vec<CounterSet>,
}

/// One counter of one name per core.
pub open spec fn one_counter_each(sets: Seq<CounterSet>, name: &'static str) -> bool {
    forall|i: int|
        0 <= i < sets.len() ==> (#[trigger] sets[i]).wf() && sets[i].names@ == seq![name]
}

/// The counters of one kind, by core.
pub open spec fn per_core(sets: Seq<CounterSet>) -> Seq<u64> {
    sets.map_values(|s: CounterSet| s.values()[0])
}

/// The sum of a list in 64 bits.
pub open spec fn sum64(v: Seq<u64>) -> nat {
    sum_of(v) % 0x1_0000_0000_0000_0000
}

/// The sum of a list.
pub open spec fn sum_of(v: Seq<u64>) -> nat
    decreases v.len(),
{
    if v.len() == 0 {
        0
    } else {
        sum_of(v.drop_last()) + v.last() as nat
    }
}

pub proof fn lemma_total_is_sum(sets: Seq<CounterSet>, n: int)
    requires
        0 <= n <= sets.len(),
    ensures
        total(sets, 0, n) == sum_of(per_core(sets).take(n)),
    decreases n,
{
    if n > 0 {
        lemma_total_is_sum(sets, n - 1);
        assert(per_core(sets).take(n).drop_last() =~= per_core(sets).take(n - 1));
    }
}

fn fresh_sets(cores: usize, name: &'static str) -> (v: Vec<CounterSet>)
    ensures
        v@.len() == cores,
        one_counter_each(v@, name),
        per_core(v@) == Seq::new(cores as nat, |i: int| 0u64),
{
    let mut v: Vec<CounterSet> = Vec::new();
    let names: [&'static str; 1] = [name];
    let mut i: usize = 0;
    while i < cores
        invariant
            i <= cores,
            v@.len() == i,
            names@ == seq![name],
            one_counter_each(v@, name),
            forall|j: int| 0 <= j < i ==> (#[trigger] v@[j]).values()[0] == 0,
        decreases cores - i,
    {
        v.push(CounterSet::new(names.as_slice()));
        i += 1;
    }
    assert(per_core(v@) =~= Seq::new(cores as nat, |j: int| 0u64));
    v
}

fn bump(sets: &mut Vec<CounterSet>, core: usize, v: u64, name: Ghost<&'static str>)
    requires
        one_counter_each(old(sets)@, name@),
        core < old(sets)@.len(),
    ensures
        one_counter_each(final(sets)@, name@),
        final(sets)@.len() == old(sets)@.len(),
        per_core(final(sets)@) == per_core(old(sets)@).update(
            core as int,
            ((per_core(old(sets)@)[core as int] + v) % 0x1_0000_0000_0000_0000) as u64,
        ),
{
    let ghost before = sets@;
    sets[core].add(0, v);
    proof {
        assert forall|i: int| 0 <= i < sets@.len() implies (#[trigger] sets@[i]).wf()
            && sets@[i].names@ == seq![name@] by {
            assert(before[i].wf());
        }
        assert(per_core(sets@) =~= per_core(before).update(
            core as int,
            ((per_core(before)[core as int] + v) % 0x1_0000_0000_0000_0000) as u64,
        ));
    }
}

impl Metrics {
    /// One packet, byte and drop counter per core.
    pub open spec fn wf(&self) -> bool {
        &&& self.bytes@.len() == self.packets@.len()
        &&& self.drops@.len() == self.packets@.len()
        &&& one_counter_each(self.packets@, "packets")
        &&& one_counter_each(self.bytes@, "bytes")
        &&& one_counter_each(self.drops@, "drops")
    }

    /// The number of cores.
    pub open spec fn cores(&self) -> nat {
        self.packets@.len()
    }

    /// Zeroed metrics for `cores` cores.
    pub fn new(cores: usize) -> (m: Self)
        ensures
            m.wf(),
            m.cores() == cores,
            per_core(m.packets@) == Seq::new(cores as nat, |i: int| 0u64),
            per_core(m.bytes@) == Seq::new(cores as nat, |i: int| 0u64),
            per_core(m.drops@) == Seq::new(cores as nat, |i: int| 0u64),
    {
        Metrics {
            packets: fresh_sets(cores, "packets"),
            bytes: fresh_sets(cores, "bytes"),
            drops: fresh_sets(cores, "drops"),
        }
    }

    /// Add to the packet counter of `core`.
    pub fn add_packets(&mut self, core: usize, v: u64)
        requires
            old(self).wf(),
            core < old(self).cores(),
        ensures
            final(self).wf(),
            final(self).cores() == old(self).cores(),
            per_core(final(self).packets@) == per_core(old(self).packets@).update(
                core as int,
                ((per_core(old(self).packets@)[core as int] + v)
                    % 0x1_0000_0000_0000_0000) as u64,
            ),
            final(self).bytes == old(self).bytes,
            final(self).drops == old(self).drops,
    {
        bump(&mut self.packets, core, v, Ghost("packets"));
    }

    /// Add to the byte counter of `core`.
    pub fn add_bytes(&mut self, core: usize, v: u64)
        requires
            old(self).wf(),
            core < old(self).cores(),
        ensures
            final(self).wf(),
            final(self).cores() == old(self).cores(),
            per_core(final(self).bytes@) == per_core(old(self).bytes@).update(
                core as int,
                ((per_core(old(self).bytes@)[core as int] + v) % 0x1_0000_0000_0000_0000) as u64,
            ),
            final(self).packets == old(self).packets,
            final(self).drops == old(self).drops,
    {
        bump(&mut self.bytes, core, v, Ghost("bytes"));
    }

    /// Add to the drop counter of `core`.
    pub fn add_drops(&mut self, core: usize, v: u64)
        requires
            old(self).wf(),
            core < old(self).cores(),
        ensures
            final(self).wf(),
            final(self).cores() == old(self).cores(),
            per_core(final(self).drops@) == per_core(old(self).drops@).update(
                core as int,
                ((per_core(old(self).drops@)[core as int] + v) % 0x1_0000_0000_0000_0000) as u64,
            ),
            final(self).packets == old(self).packets,
            final(self).bytes == old(self).bytes,
    {
        bump(&mut self.drops, core, v, Ghost("drops"));
    }

    /// Packets, bytes and drops summed across all cores, in 64 bits.
    pub fn totals(&self) -> (r: (u64, u64, u64))
        requires
            self.wf(),
        ensures
            r.0 == sum64(per_core(self.packets@)),
            r.1 == sum64(per_core(self.bytes@)),
            r.2 == sum64(per_core(self.drops@)),
    {
        proof {
            self.lemma_same_counters();
            let n = self.packets@.len() as int;
            lemma_total_is_sum(self.packets@, n);
            lemma_total_is_sum(self.bytes@, n);
            lemma_total_is_sum(self.drops@, n);
            assert(per_core(self.packets@).take(n) =~= per_core(self.packets@));
            assert(per_core(self.bytes@).take(n) =~= per_core(self.bytes@));
            assert(per_core(self.drops@).take(n) =~= per_core(self.drops@));
        }
        (sum_counter(&self.packets, 0), sum_counter(&self.bytes, 0), sum_counter(&self.drops, 0))
    }

    proof fn lemma_same_counters(&self)
        requires
            self.wf(),
        ensures
            same_counters(self.packets@),
            same_counters(self.bytes@),
            same_counters(self.drops@),
            self.cores() > 0 ==> self.packets@[0].names@.len() == 1,
            self.cores() > 0 ==> self.bytes@[0].names@.len() == 1,
            self.cores() > 0 ==> self.drops@[0].names@.len() == 1,
    {
    }

    /// The whole report.
    pub open spec fn report(&self) -> Seq<char> {
        let head = "# fds metrics (pull endpoint)\n"@ + "# cores: "@ + text::decimal(self.cores())
            + "\n"@;
        let named = if self.cores() == 0 {
            Seq::empty()
        } else {
            "# counter names per core: "@ + names_text(self.packets@[0].names@) + names_text(
                self.bytes@[0].names@,
            ) + names_text(self.drops@[0].names@) + "\n"@
        };
        head + named + kind_text(self.packets@) + kind_text(self.bytes@) + kind_text(self.drops@)
    }

    /// Append the report to `out`.
    pub fn write_into(&self, out: &mut String)
        requires
            self.wf(),
        ensures
            final(out)@ == old(out)@ + self.report(),
    {
        let ghost start = out@;
        proof {
            self.lemma_same_counters();
        }
        out.append("# fds metrics (pull endpoint)\n");
        out.append("# cores: ");
        push_num(out, self.packets.len() as u64);
        out.append("\n");
        if self.packets.len() != 0 {
            out.append("# counter names per core: ");
            write_names(out, self.packets[0].names());
            write_names(out, self.bytes[0].names());
            write_names(out, self.drops[0].names());
            out.append("\n");
        }
        write_kind(out, &self.packets);
        write_kind(out, &self.bytes);
        write_kind(out, &self.drops);
        assert(out@ =~= start + self.report());
    }
}

/// Adding to one core adds to the total, in 64 bits.
pub proof fn law_add_raises_total(v: Seq<u64>, core: int, by: u64)
    requires
        0 <= core < v.len(),
    ensures
        sum64(v.update(core, ((v[core] + by) % 0x1_0000_0000_0000_0000) as u64)) == (sum64(v) + by)
            % 0x1_0000_0000_0000_0000,
    decreases v.len(),
{
    let m: int = 0x1_0000_0000_0000_0000;
    let w = v.update(core, ((v[core] + by) % m) as u64);
    if core == v.len() - 1 {
        assert(w.drop_last() =~= v.drop_last());
        let a = sum_of(v.drop_last()) as int;
        vstd::arithmetic::div_mod::lemma_add_mod_noop_right(a, v[core] + by as int, m);
        vstd::arithmetic::div_mod::lemma_add_mod_noop(a + v[core], by as int, m);
        vstd::arithmetic::div_mod::lemma_small_mod(by as nat, m as nat);
    } else {
        law_add_raises_total(v.drop_last(), core, by);
        assert(w.drop_last() =~= v.drop_last().update(core, ((v[core] + by) % m) as u64));
        let a = sum_of(v.drop_last()) as int;
        let b = sum_of(w.drop_last()) as int;
        let x = v.last() as int;
        vstd::arithmetic::div_mod::lemma_add_mod_noop(b, x, m);
        vstd::arithmetic::div_mod::lemma_add_mod_noop(a + x, by as int, m);
        vstd::arithmetic::div_mod::lemma_add_mod_noop(a, by as int, m);
        vstd::arithmetic::div_mod::lemma_add_mod_noop(a + by, x, m);
        vstd::arithmetic::div_mod::lemma_small_mod(by as nat, m as nat);
        assert((b + x) % m == (a + by + x) % m);
        assert((a + x + by) % m == (sum64(v) + by) % m);
    }
}

} // verus!
