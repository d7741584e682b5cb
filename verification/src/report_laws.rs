//! Laws of the metrics report.
use vstd::prelude::*;
use crate::metrics;
use crate::metrics::{CounterSet, Metrics};
use crate::text;

verus! {

/// The lines of one counter, a core each, from the first core on.
pub open spec fn lines_by_core(name: Seq<char>, v: Seq<u64>) -> Seq<char>
    decreases v.len(),
{
    if v.len() == 0 {
        Seq::empty()
    } else {
        lines_by_core(name, v.drop_last()) + ("core."@ + text::decimal((v.len() - 1) as nat) + "."@
            + name + " "@ + text::decimal(v.last() as nat) + "\n"@)
    }
}

/// The lines of one counter: its total over all cores, then each core's own.
pub open spec fn lines_of(name: Seq<char>, v: Seq<u64>) -> Seq<char> {
    name + ".total "@ + text::decimal(metrics::sum64(v)) + "\n"@ + lines_by_core(name, v)
}

proof fn lemma_cores_text(sets: Seq<CounterSet>, name: &'static str, n: int)
    requires
        0 <= n <= sets.len(),
        metrics::one_counter_each(sets, name),
    ensures
        metrics::cores_text(sets, seq![name], n) == lines_by_core(name@, metrics::per_core(sets).take(n)),
    decreases n,
{
    if n > 0 {
        lemma_cores_text(sets, name, n - 1);
        let v = metrics::per_core(sets).take(n);
        assert(v.drop_last() =~= metrics::per_core(sets).take(n - 1));
        assert(v.last() == sets[n - 1].values()[0]);
        let c = metrics::core_text(sets[n - 1], n - 1, seq![name], 1);
        assert(metrics::core_text(sets[n - 1], n - 1, seq![name], 0) =~= Seq::empty());
        assert(c =~= "core."@ + text::decimal((n - 1) as nat) + "."@ + name@ + " "@ + text::decimal(
            v.last() as nat,
        ) + "\n"@);
    }
}

proof fn lemma_kind_text(sets: Seq<CounterSet>, name: &'static str)
    requires
        sets.len() > 0,
        metrics::one_counter_each(sets, name),
    ensures
        metrics::kind_text(sets) == lines_of(name@, metrics::per_core(sets)),
{
    assert(sets[0].names@ == seq![name]);
    let n = sets.len() as int;
    lemma_cores_text(sets, name, n);
    metrics::lemma_total_is_sum(sets, n);
    assert(metrics::per_core(sets).take(n) =~= metrics::per_core(sets));
    assert(metrics::totals_text(sets, seq![name], 0) =~= Seq::empty());
    assert(metrics::totals_text(sets, seq![name], 1) =~= name@ + ".total "@ + text::decimal(
        metrics::sum64(metrics::per_core(sets)),
    ) + "\n"@);
}

/// What a report says: the number of cores and, where there are any, the
/// names of the counters and the lines of each: packets, bytes and drops.
pub proof fn law_reports(m: Metrics)
    requires
        m.wf(),
    ensures
        ({
            let p = metrics::per_core(m.packets@);
            let b = metrics::per_core(m.bytes@);
            let d = metrics::per_core(m.drops@);
            let head = "# fds metrics (pull endpoint)\n"@ + "# cores: "@ + text::decimal(p.len())
                + "\n"@;
            &&& p.len() == 0 ==> m.report() == head
            &&& p.len() > 0 ==> m.report() == head + ("# counter names per core: "@ + "packets"@
                + " "@ + "bytes"@ + " "@ + "drops"@ + " "@ + "\n"@) + lines_of("packets"@, p)
                + lines_of("bytes"@, b) + lines_of("drops"@, d)
        }),
{
    if m.cores() > 0 {
        lemma_kind_text(m.packets@, "packets");
        lemma_kind_text(m.bytes@, "bytes");
        lemma_kind_text(m.drops@, "drops");
        assert(m.packets@[0].names@ == seq!["packets"]);
        assert(m.bytes@[0].names@ == seq!["bytes"]);
        assert(m.drops@[0].names@ == seq!["drops"]);
        lemma_one_name("packets");
        lemma_one_name("bytes");
        lemma_one_name("drops");
        assert("# counter names per core: "@ + metrics::names_text(m.packets@[0].names@) + metrics::names_text(
            m.bytes@[0].names@,
        ) + metrics::names_text(m.drops@[0].names@) + "\n"@ =~= "# counter names per core: "@ + "packets"@
            + " "@ + "bytes"@ + " "@ + "drops"@ + " "@ + "\n"@);
    } else {
        let head = "# fds metrics (pull endpoint)\n"@ + "# cores: "@ + text::decimal(m.cores())
            + "\n"@;
        assert(m.report() =~= head);
    }
}

proof fn lemma_one_name(name: &'static str)
    ensures
        metrics::names_text(seq![name]) == name@ + " "@,
{
    assert(seq![name].drop_last() =~= Seq::<&'static str>::empty());
    assert(metrics::names_text(seq![name].drop_last()) =~= Seq::empty());
    assert(metrics::names_text(seq![name]) =~= name@ + " "@);
}

/// A total is the sum of the cores, in 64 bits: one core's counter is its
/// total, and one more core adds its own.
pub proof fn law_totals(v: Seq<u64>, x: u64)
    ensures
        metrics::sum64(Seq::empty()) == 0,
        metrics::sum64(seq![x]) == x,
        metrics::sum64(v.push(x)) == (metrics::sum64(v) + x) % 0x1_0000_0000_0000_0000,
{
    let none = Seq::<u64>::empty();
    assert(seq![x].drop_last() =~= none);
    assert(metrics::sum_of(none) == 0);
    assert(v.push(x).drop_last() =~= v);
    vstd::arithmetic::div_mod::lemma_add_mod_noop(
        metrics::sum_of(v) as int,
        x as int,
        0x1_0000_0000_0000_0000,
    );
}

} // verus!
