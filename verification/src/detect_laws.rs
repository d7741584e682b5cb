//! What the detected facts mean in terms of the texts they come from.
use vstd::prelude::*;
use crate::detect;
use crate::detect::CpuScan;
use crate::text;
use crate::text_laws;

verus! {

/// A `key : value` line: the key before the first colon and the value
/// behind it, each with any white space around it.
pub proof fn law_line_entries(
    a: Seq<char>,
    key: Seq<char>,
    b: Seq<char>,
    c: Seq<char>,
    value: Seq<char>,
    d: Seq<char>,
)
    requires
        text_laws::blank(a),
        text_laws::blank(b),
        text_laws::blank(c),
        text_laws::blank(d),
        text_laws::solid(key),
        text_laws::solid(value),
        !key.contains(':'),
    ensures
        detect::entry(a + key + b + seq![':'] + (c + value + d)) == Some((key, value)),
        detect::entry(a + key + b + seq![':'] + c) == Some((key, Seq::<char>::empty())),
        detect::entry(a + key + b) is None,
{
    let k = a + key + b;
    assert(!k.contains(':')) by {
        if k.contains(':') {
            let i = choose|i: int| 0 <= i < k.len() && k[i] == ':';
            if i < a.len() {
                assert(text::white(a[i]));
            } else if i < a.len() + key.len() {
                assert(key[i - a.len()] == ':');
            } else {
                assert(text::white(b[i - a.len() - key.len()]));
            }
        }
    }
    text_laws::law_first_mark(k, ':', c + value + d);
    text_laws::law_first_mark(k, ':', c);
    text_laws::law_trimmed_is_between(a, key, b);
    text_laws::law_trimmed_is_between(c, value, d);
    text_laws::law_blank_is_trimmed_away(c);
}

/// Line `k` gives `value` for `key`.
pub open spec fn says(lines: Seq<Seq<char>>, k: int, key: Seq<char>, value: Seq<char>) -> bool {
    0 <= k < lines.len() && detect::entry(lines[k]) == Some((key, value))
}

/// Line `k` is about `key`.
pub open spec fn about(lines: Seq<Seq<char>>, k: int, key: Seq<char>) -> bool {
    0 <= k < lines.len() && detect::entry(lines[k]) is Some && (detect::entry(lines[k])->0).0 == key
}

/// Line `k` names core `c` of package `p`: it is a `core id` line with the
/// value `c`, and the nearest `physical id` line above it has the value
/// `p`; `first` is the package where there is none above.
pub open spec fn names_core(
    lines: Seq<Seq<char>>,
    first: Seq<char>,
    k: int,
    p: Seq<char>,
    c: Seq<char>,
) -> bool {
    &&& says(lines, k, "core id"@, c)
    &&& {
        ||| p == first && forall|j: int| 0 <= j < k ==> !#[trigger] about(lines, j, "physical id"@)
        ||| exists|j: int|
            {
                &&& 0 <= j < k
                &&& #[trigger] says(lines, j, "physical id"@, p)
                &&& forall|m: int| j < m < k ==> !#[trigger] about(lines, m, "physical id"@)
            }
    }
}

/// The package in force after the lines: that of the last `physical id`
/// line, or the first one where there is none.
spec fn in_force(lines: Seq<Seq<char>>, first: Seq<char>, p: Seq<char>) -> bool {
    ||| p == first && forall|j: int|
        0 <= j < lines.len() ==> !#[trigger] about(lines, j, "physical id"@)
    ||| exists|j: int|
        {
            &&& 0 <= j < lines.len()
            &&& #[trigger] says(lines, j, "physical id"@, p)
            &&& forall|m: int| j < m < lines.len() ==> !#[trigger] about(lines, m, "physical id"@)
        }
}

proof fn lemma_keys_differ()
    ensures
        "core id"@ != "physical id"@,
        "core id"@ != "processor"@,
        "core id"@ != "flags"@,
        "core id"@ != "model name"@,
        "core id"@ != "vendor_id"@,
        "physical id"@ != "processor"@,
        "physical id"@ != "flags"@,
        "physical id"@ != "model name"@,
        "physical id"@ != "vendor_id"@,
        "flags"@ != "model name"@,
        "flags"@ != "vendor_id"@,
        "model name"@ != "vendor_id"@,
        "processor"@ != "flags"@,
        "processor"@ != "model name"@,
        "processor"@ != "vendor_id"@,
{
    reveal_strlit("core id");
    reveal_strlit("physical id");
    reveal_strlit("processor");
    reveal_strlit("flags");
    reveal_strlit("model name");
    reveal_strlit("vendor_id");
    assert("core id"@.len() == 7);
    assert("physical id"@.len() == 11);
    assert("processor"@.len() == 9);
    assert("flags"@.len() == 5);
    assert("model name"@.len() == 10);
    assert("vendor_id"@.len() == 9);
    assert("processor"@[0] != "vendor_id"@[0]);
}

proof fn lemma_front(lines: Seq<Seq<char>>, k: int, key: Seq<char>, value: Seq<char>)
    requires
        lines.len() > 0,
        k < lines.len() - 1,
    ensures
        says(lines.drop_last(), k, key, value) == says(lines, k, key, value),
        about(lines.drop_last(), k, key) == about(lines, k, key),
{
    if 0 <= k {
        assert(lines.drop_last()[k] == lines[k]);
    }
}

proof fn lemma_in_force(s: CpuScan, lines: Seq<Seq<char>>)
    ensures
        in_force(lines, s.phys_id, detect::cpu_lines(s, lines).phys_id),
    decreases lines.len(),
{
    lemma_keys_differ();
    if lines.len() > 0 {
        let front = lines.drop_last();
        let n = lines.len() - 1;
        lemma_in_force(s, front);
        let p = detect::cpu_lines(s, front).phys_id;
        let q = detect::cpu_lines(s, lines).phys_id;
        if about(lines, n, "physical id"@) {
            assert(says(lines, n, "physical id"@, q));
        } else {
            assert(q == p);
            if p == s.phys_id && forall|j: int|
                0 <= j < front.len() ==> !#[trigger] about(front, j, "physical id"@) {
                assert forall|j: int| 0 <= j < lines.len() implies !#[trigger] about(
                    lines,
                    j,
                    "physical id"@,
                ) by {
                    if j < n {
                        lemma_front(lines, j, "physical id"@, p);
                        assert(!about(front, j, "physical id"@));
                    }
                }
            } else {
                let j = choose|j: int|
                    {
                        &&& 0 <= j < front.len()
                        &&& #[trigger] says(front, j, "physical id"@, p)
                        &&& forall|m: int|
                            j < m < front.len() ==> !#[trigger] about(front, m, "physical id"@)
                    };
                lemma_front(lines, j, "physical id"@, p);
                assert(says(lines, j, "physical id"@, p));
                assert forall|m: int| j < m < lines.len() implies !#[trigger] about(
                    lines,
                    m,
                    "physical id"@,
                ) by {
                    if m < n {
                        lemma_front(lines, m, "physical id"@, p);
                        assert(!about(front, m, "physical id"@));
                    }
                }
            }
        }
    }
}

/// Only one package is in force.
proof fn lemma_one_package(
    lines: Seq<Seq<char>>,
    first: Seq<char>,
    k: int,
    p: Seq<char>,
    q: Seq<char>,
    c: Seq<char>,
)
    requires
        0 <= k < lines.len(),
        names_core(lines, first, k, p, c),
        in_force(lines.take(k), first, q),
    ensures
        p == q,
{
    let front = lines.take(k);
    assert forall|j: int| 0 <= j < k implies #[trigger] about(front, j, "physical id"@) == about(
        lines,
        j,
        "physical id"@,
    ) by {
        assert(front[j] == lines[j]);
    }
    let none = forall|j: int| 0 <= j < k ==> !#[trigger] about(lines, j, "physical id"@);
    if none {
        if exists|j: int|
            {
                &&& 0 <= j < k
                &&& #[trigger] says(lines, j, "physical id"@, p)
                &&& forall|m: int| j < m < k ==> !#[trigger] about(lines, m, "physical id"@)
            } {
            let j = choose|j: int|
                {
                    &&& 0 <= j < k
                    &&& #[trigger] says(lines, j, "physical id"@, p)
                    &&& forall|m: int| j < m < k ==> !#[trigger] about(lines, m, "physical id"@)
                };
            assert(about(lines, j, "physical id"@));
        }
        if exists|j: int|
            {
                &&& 0 <= j < k
                &&& #[trigger] says(front, j, "physical id"@, q)
                &&& forall|m: int| j < m < k ==> !#[trigger] about(front, m, "physical id"@)
            } {
            let j = choose|j: int|
                {
                    &&& 0 <= j < k
                    &&& #[trigger] says(front, j, "physical id"@, q)
                    &&& forall|m: int| j < m < k ==> !#[trigger] about(front, m, "physical id"@)
                };
            assert(about(front, j, "physical id"@));
        }
    } else {
        let w = choose|w: int| 0 <= w < k && #[trigger] about(lines, w, "physical id"@);
        assert(about(front, w, "physical id"@));
        let j = choose|j: int|
            {
                &&& 0 <= j < k
                &&& #[trigger] says(lines, j, "physical id"@, p)
                &&& forall|m: int| j < m < k ==> !#[trigger] about(lines, m, "physical id"@)
            };
        let i = choose|i: int|
            {
                &&& 0 <= i < k
                &&& #[trigger] says(front, i, "physical id"@, q)
                &&& forall|m: int| i < m < k ==> !#[trigger] about(front, m, "physical id"@)
            };
        assert(front[i] == lines[i]);
        assert(about(lines, j, "physical id"@));
        assert(about(front, i, "physical id"@));
        if i < j {
            assert(about(front, j, "physical id"@));
        }
        if j < i {
            assert(about(lines, i, "physical id"@));
        }
    }
}

/// A core is counted for its package: a `core id` line counts for the
/// package that the nearest `physical id` line above it names, so the same
/// core id in two packages is two cores.
pub proof fn law_cores_belong_to_their_package(
    s: CpuScan,
    lines: Seq<Seq<char>>,
    p: Seq<char>,
    c: Seq<char>,
    k: int,
)
    requires
        names_core(lines, s.phys_id, k, p, c),
    ensures
        detect::cpu_lines(s, lines).cores.contains((p, c)),
    decreases lines.len(),
{
    lemma_keys_differ();
    let front = lines.drop_last();
    if k == lines.len() - 1 {
        lemma_in_force(s, front);
        assert(lines.take(k) =~= front);
        lemma_one_package(lines, s.phys_id, k, p, detect::cpu_lines(s, front).phys_id, c);
    } else {
        assert forall|j: int| 0 <= j <= k implies #[trigger] about(front, j, "physical id"@)
            == about(lines, j, "physical id"@) by {
            lemma_front(lines, j, "physical id"@, p);
        }
        lemma_front(lines, k, "core id"@, c);
        if exists|j: int|
            {
                &&& 0 <= j < k
                &&& #[trigger] says(lines, j, "physical id"@, p)
                &&& forall|m: int| j < m < k ==> !#[trigger] about(lines, m, "physical id"@)
            } {
            let j = choose|j: int|
                {
                    &&& 0 <= j < k
                    &&& #[trigger] says(lines, j, "physical id"@, p)
                    &&& forall|m: int| j < m < k ==> !#[trigger] about(lines, m, "physical id"@)
                };
            lemma_front(lines, j, "physical id"@, p);
            assert(says(front, j, "physical id"@, p));
        }
        assert(names_core(front, s.phys_id, k, p, c));
        law_cores_belong_to_their_package(s, front, p, c, k);
    }
}

/// Nothing else is counted: every core that was not known before is named
/// by a line.
pub proof fn law_only_named_cores_count(
    s: CpuScan,
    lines: Seq<Seq<char>>,
    p: Seq<char>,
    c: Seq<char>,
)
    requires
        detect::cpu_lines(s, lines).cores.contains((p, c)),
    ensures
        s.cores.contains((p, c)) || exists|k: int|
            #[trigger] names_core(lines, s.phys_id, k, p, c),
    decreases lines.len(),
{
    lemma_keys_differ();
    if lines.len() > 0 {
        let front = lines.drop_last();
        let n = lines.len() - 1;
        if detect::cpu_lines(s, front).cores.contains((p, c)) {
            law_only_named_cores_count(s, front, p, c);
            if !s.cores.contains((p, c)) {
                let k = choose|k: int| #[trigger] names_core(front, s.phys_id, k, p, c);
                assert forall|j: int| 0 <= j <= k implies #[trigger] about(
                    lines,
                    j,
                    "physical id"@,
                ) == about(front, j, "physical id"@) by {
                    lemma_front(lines, j, "physical id"@, p);
                }
                lemma_front(lines, k, "core id"@, c);
                if exists|j: int|
                    {
                        &&& 0 <= j < k
                        &&& #[trigger] says(front, j, "physical id"@, p)
                        &&& forall|m: int|
                            j < m < k ==> !#[trigger] about(front, m, "physical id"@)
                    } {
                    let j = choose|j: int|
                        {
                            &&& 0 <= j < k
                            &&& #[trigger] says(front, j, "physical id"@, p)
                            &&& forall|m: int|
                                j < m < k ==> !#[trigger] about(front, m, "physical id"@)
                        };
                    lemma_front(lines, j, "physical id"@, p);
                    assert(says(lines, j, "physical id"@, p));
                }
                assert(names_core(lines, s.phys_id, k, p, c));
            }
        } else {
            lemma_in_force(s, front);
            assert(says(lines, n, "core id"@, c));
            assert forall|j: int| 0 <= j < n implies #[trigger] about(lines, j, "physical id"@)
                == about(front, j, "physical id"@) by {
                lemma_front(lines, j, "physical id"@, p);
            }
            if exists|j: int|
                {
                    &&& 0 <= j < front.len()
                    &&& #[trigger] says(front, j, "physical id"@, p)
                    &&& forall|m: int|
                        j < m < front.len() ==> !#[trigger] about(front, m, "physical id"@)
                } {
                let j = choose|j: int|
                    {
                        &&& 0 <= j < front.len()
                        &&& #[trigger] says(front, j, "physical id"@, p)
                        &&& forall|m: int|
                            j < m < front.len() ==> !#[trigger] about(front, m, "physical id"@)
                    };
                lemma_front(lines, j, "physical id"@, p);
                assert(says(lines, j, "physical id"@, p));
            }
            assert(names_core(lines, s.phys_id, n, p, c));
        }
    }
}

/// The vendor is that of the first `vendor_id` line with a value, and the
/// model that of the first `model name` line with one.
pub proof fn law_first_name_counts(
    s: CpuScan,
    lines: Seq<Seq<char>>,
    k: int,
    value: Seq<char>,
    j: int,
    model: Seq<char>,
)
    ensures
        s.vendor.len() == 0 && says(lines, k, "vendor_id"@, value) && value.len() > 0 && (forall|
            m: int,
        |
            0 <= m < k ==> !#[trigger] about(lines, m, "vendor_id"@)) ==> detect::cpu_lines(
            s,
            lines,
        ).vendor == value,
        s.model.len() == 0 && says(lines, j, "model name"@, model) && model.len() > 0 && (forall|
            m: int,
        |
            0 <= m < j ==> !#[trigger] about(lines, m, "model name"@)) ==> detect::cpu_lines(
            s,
            lines,
        ).model == model,
        (forall|m: int| 0 <= m < lines.len() ==> !#[trigger] about(lines, m, "vendor_id"@))
            ==> detect::cpu_lines(s, lines).vendor == s.vendor,
        (forall|m: int| 0 <= m < lines.len() ==> !#[trigger] about(lines, m, "model name"@))
            ==> detect::cpu_lines(s, lines).model == s.model,
    decreases lines.len(),
{
    lemma_keys_differ();
    if lines.len() > 0 {
        let front = lines.drop_last();
        law_first_name_counts(s, front, k, value, j, model);
        assert forall|m: int| m < lines.len() - 1 implies #[trigger] about(front, m, "vendor_id"@)
            == about(lines, m, "vendor_id"@) by {
            lemma_front(lines, m, "vendor_id"@, value);
        }
        assert forall|m: int| m < lines.len() - 1 implies #[trigger] about(front, m, "model name"@)
            == about(lines, m, "model name"@) by {
            lemma_front(lines, m, "model name"@, value);
        }
        if k < lines.len() - 1 {
            lemma_front(lines, k, "vendor_id"@, value);
        }
        if j < lines.len() - 1 {
            lemma_front(lines, j, "model name"@, model);
        }
        if forall|m: int| 0 <= m < lines.len() ==> !#[trigger] about(lines, m, "vendor_id"@) {
            assert(!about(lines, lines.len() - 1, "vendor_id"@));
            assert forall|m: int| 0 <= m < front.len() implies !#[trigger] about(
                front,
                m,
                "vendor_id"@,
            ) by {
                assert(!about(lines, m, "vendor_id"@));
            }
        }
        if forall|m: int| 0 <= m < lines.len() ==> !#[trigger] about(lines, m, "model name"@) {
            assert(!about(lines, lines.len() - 1, "model name"@));
            assert forall|m: int| 0 <= m < front.len() implies !#[trigger] about(
                front,
                m,
                "model name"@,
            ) by {
                assert(!about(lines, m, "model name"@));
            }
        }
        if says(lines, k, "vendor_id"@, value) && (forall|m: int|
            0 <= m < k ==> !#[trigger] about(lines, m, "vendor_id"@)) {
            assert forall|m: int| 0 <= m < k implies !#[trigger] about(front, m, "vendor_id"@) by {
                assert(!about(lines, m, "vendor_id"@));
            }
        }
        if says(lines, j, "model name"@, model) && (forall|m: int|
            0 <= m < j ==> !#[trigger] about(lines, m, "model name"@)) {
            assert forall|m: int| 0 <= m < j implies !#[trigger] about(front, m, "model name"@) by {
                assert(!about(lines, m, "model name"@));
            }
        }
    }
}

/// The first flag list counts, and no other.
pub proof fn law_first_flags_count(s: CpuScan, lines: Seq<Seq<char>>, k: int, value: Seq<char>)
    requires
        !s.seen_flags,
        says(lines, k, "flags"@, value),
        forall|m: int| 0 <= m < k ==> !#[trigger] about(lines, m, "flags"@),
    ensures
        detect::cpu_lines(s, lines).simd == s.simd + detect::features_from(text::words(value), 0),
        detect::cpu_lines(s, lines).seen_flags,
    decreases lines.len(),
{
    lemma_keys_differ();
    let front = lines.drop_last();
    if k < lines.len() - 1 {
        lemma_front(lines, k, "flags"@, value);
        assert forall|m: int| 0 <= m < k implies !#[trigger] about(front, m, "flags"@) by {
            lemma_front(lines, m, "flags"@, value);
            assert(!about(lines, m, "flags"@));
        }
        law_first_flags_count(s, front, k, value);
    } else {
        lemma_no_flags(s, front);
        assert forall|m: int| 0 <= m < front.len() implies !#[trigger] about(
            front,
            m,
            "flags"@,
        ) by {
            lemma_front(lines, m, "flags"@, value);
            assert(!about(lines, m, "flags"@));
        }
    }
}

proof fn lemma_no_flags(s: CpuScan, lines: Seq<Seq<char>>)
    ensures
        (forall|m: int| 0 <= m < lines.len() ==> !#[trigger] about(lines, m, "flags"@))
            ==> detect::cpu_lines(s, lines).simd == s.simd && detect::cpu_lines(s, lines).seen_flags
            == s.seen_flags,
    decreases lines.len(),
{
    lemma_keys_differ();
    if lines.len() > 0 {
        let front = lines.drop_last();
        lemma_no_flags(s, front);
        if forall|m: int| 0 <= m < lines.len() ==> !#[trigger] about(lines, m, "flags"@) {
            assert(!about(lines, lines.len() - 1, "flags"@));
            assert forall|m: int| 0 <= m < front.len() implies !#[trigger] about(
                front,
                m,
                "flags"@,
            ) by {
                lemma_front(lines, m, "flags"@, Seq::empty());
                assert(!about(lines, m, "flags"@));
            }
        }
    }
}

/// Each flag of the CPU turns on the target feature of the same name; the
/// one that is spelled differently is `sse4_2` for `sse4.2`.
pub proof fn law_flags_turn_features_on(flags: Seq<Seq<char>>)
    ensures
        flags.contains("avx2"@) ==> detect::features_from(flags, 0).contains("avx2"@),
        flags.contains("avx512f"@) ==> detect::features_from(flags, 0).contains("avx512f"@),
        flags.contains("avx512bw"@) ==> detect::features_from(flags, 0).contains("avx512bw"@),
        flags.contains("avx512cd"@) ==> detect::features_from(flags, 0).contains("avx512cd"@),
        flags.contains("avx512dq"@) ==> detect::features_from(flags, 0).contains("avx512dq"@),
        flags.contains("avx512vl"@) ==> detect::features_from(flags, 0).contains("avx512vl"@),
        flags.contains("sse4_2"@) ==> detect::features_from(flags, 0).contains("sse4.2"@),
        flags.contains("ssse3"@) ==> detect::features_from(flags, 0).contains("ssse3"@),
        flags.contains("fma"@) ==> detect::features_from(flags, 0).contains("fma"@),
        flags.contains("f16c"@) ==> detect::features_from(flags, 0).contains("f16c"@),
        flags.contains("bmi1"@) ==> detect::features_from(flags, 0).contains("bmi1"@),
        flags.contains("bmi2"@) ==> detect::features_from(flags, 0).contains("bmi2"@),
        flags.contains("popcnt"@) ==> detect::features_from(flags, 0).contains("popcnt"@),
        flags.contains("lzcnt"@) ==> detect::features_from(flags, 0).contains("lzcnt"@),
        flags.contains("movbe"@) ==> detect::features_from(flags, 0).contains("movbe"@),
        flags.contains("aes"@) ==> detect::features_from(flags, 0).contains("aes"@),
        flags.contains("pclmulqdq"@) ==> detect::features_from(flags, 0).contains("pclmulqdq"@),
        forall|name: Seq<char>| #[trigger]
            detect::features_from(flags, 0).contains(name) ==> turned_on(flags, name),
{
    let t = detect::feature_table();
    assert(t.len() == 17);
    lemma_feature(flags, 0, 0);
    lemma_feature(flags, 0, 1);
    lemma_feature(flags, 0, 2);
    lemma_feature(flags, 0, 3);
    lemma_feature(flags, 0, 4);
    lemma_feature(flags, 0, 5);
    lemma_feature(flags, 0, 6);
    lemma_feature(flags, 0, 7);
    lemma_feature(flags, 0, 8);
    lemma_feature(flags, 0, 9);
    lemma_feature(flags, 0, 10);
    lemma_feature(flags, 0, 11);
    lemma_feature(flags, 0, 12);
    lemma_feature(flags, 0, 13);
    lemma_feature(flags, 0, 14);
    lemma_feature(flags, 0, 15);
    lemma_feature(flags, 0, 16);
    lemma_features_from(flags, 0);
}

/// A flag of the table that is set gives its feature.
proof fn lemma_feature(flags: Seq<Seq<char>>, from: int, j: int)
    requires
        0 <= from <= j < detect::feature_table().len(),
    ensures
        flags.contains(detect::feature_table()[j].0) ==> detect::features_from(
            flags,
            from,
        ).contains(detect::feature_table()[j].1),
    decreases j - from,
{
    let t = detect::feature_table();
    let all = detect::features_from(flags, from);
    let rest = detect::features_from(flags, from + 1);
    if flags.contains(t[j].0) {
        if j == from {
            assert(all[0] == t[j].1);
        } else {
            lemma_feature(flags, from + 1, j);
            let k = choose|k: int| 0 <= k < rest.len() && rest[k] == t[j].1;
            if flags.contains(t[from].0) {
                assert(all[k + 1] == t[j].1);
            } else {
                assert(all[k] == t[j].1);
            }
        }
    }
}

/// Some flag of the table that is set stands for this feature.
pub open spec fn turned_on(flags: Seq<Seq<char>>, name: Seq<char>) -> bool {
    exists|j: int|
        {
            &&& 0 <= j < detect::feature_table().len()
            &&& (#[trigger] detect::feature_table()[j]).1 == name
            &&& flags.contains(detect::feature_table()[j].0)
        }
}

proof fn lemma_features_from(flags: Seq<Seq<char>>, from: int)
    requires
        0 <= from <= detect::feature_table().len(),
    ensures
        forall|name: Seq<char>| #[trigger]
            detect::features_from(flags, from).contains(name) ==> turned_on(flags, name),
    decreases detect::feature_table().len() - from,
{
    let t = detect::feature_table();
    if from < t.len() {
        lemma_features_from(flags, from + 1);
        let all = detect::features_from(flags, from);
        let rest = detect::features_from(flags, from + 1);
        assert forall|name: Seq<char>| #[trigger] all.contains(name) implies turned_on(
            flags,
            name,
        ) by {
            let i = choose|i: int| 0 <= i < all.len() && all[i] == name;
            let at = if flags.contains(t[from].0) {
                i - 1
            } else {
                i
            };
            if at < 0 {
                assert(t[from].1 == name);
            } else {
                assert(rest[at] == name);
                assert(rest.contains(name));
            }
        }
    }
}

// ---------------------------------------------------------------------
// Sizes, nodes and counters
// ---------------------------------------------------------------------

/// What a unit multiplies by, by its name in any case.
pub open spec fn scale(u: Seq<char>, k: nat) -> bool {
    ||| k == 1 && u.len() == 0
    ||| k == 1024 && (text_laws::spells_capital(u, "K"@) || text_laws::spells_capital(u, "KB"@)
        || text_laws::spells_capital(u, "KIB"@))
    ||| k == 1048576 && (text_laws::spells_capital(u, "M"@) || text_laws::spells_capital(u, "MB"@)
        || text_laws::spells_capital(u, "MIB"@))
    ||| k == 1073741824 && (text_laws::spells_capital(u, "G"@) || text_laws::spells_capital(
        u,
        "GB"@,
    ) || text_laws::spells_capital(u, "GIB"@))
    ||| k == 1099511627776 && (text_laws::spells_capital(u, "T"@) || text_laws::spells_capital(
        u,
        "TB"@,
    ) || text_laws::spells_capital(u, "TIB"@))
}

/// A size is a decimal number and a unit, with any white space around and
/// between them: the number times 1024 for each step of K, M, G and T, or
/// as it stands without a unit; no size where that exceeds 64 bits or the
/// unit is unknown.
pub proof fn law_sizes_are_read(
    a: Seq<char>,
    n: nat,
    b: Seq<char>,
    u: Seq<char>,
    c: Seq<char>,
    k: nat,
)
    requires
        text_laws::blank(a),
        text_laws::blank(b),
        text_laws::blank(c),
        u.len() == 0 ==> b.len() == 0,
        u.len() > 0 ==> text_laws::solid(u) && !text::digit(u[0]),
    ensures
        scale(u, k) ==> detect::size_of(a + (text::decimal(n) + b + u) + c) == if n * k
            <= u64::MAX {
            Some((n * k) as u64)
        } else {
            None
        },
        (forall|m: nat| !#[trigger] scale(u, m)) ==> detect::size_of(
            a + (text::decimal(n) + b + u) + c,
        ) is None,
{
    let d = text::decimal(n);
    let x = d + b + u;
    text_laws::law_numbers_are_read(n);
    text::law_decimal_roundtrip(n);
    assert(x[0] == d[0]);
    if u.len() > 0 {
        assert(x.last() == u.last());
    } else {
        assert(x =~= d);
    }
    text_laws::law_trimmed_is_between(a, x, c);
    lemma_digit_run(d, b + u);
    assert(x =~= d + (b + u));
    assert(x.take(d.len() as int) =~= d);
    assert(x.skip(d.len() as int) =~= b + u);
    let none = Seq::<char>::empty();
    assert(none + d + none =~= d);
    text_laws::law_trimmed_is_between(none, d, none);
    if u.len() > 0 {
        assert(b + u + none =~= b + u);
        text_laws::law_trimmed_is_between(b, u, none);
    } else {
        assert(b + u =~= none);
        text_laws::law_blank_is_trimmed_away(none);
    }
    lemma_units(u);
    let up = u.map_values(|ch: char| text::upper(ch));
    assert(detect::size_of(a + x + c) == match detect::unit_bytes(up) {
        Some(m) => if n <= u64::MAX && n * m <= u64::MAX {
            Some((n * m) as u64)
        } else {
            None
        },
        None => None,
    });
    if scale(u, k) {
        assert(detect::unit_bytes(up) == Some(k as u64));
        assert(n * k <= u64::MAX ==> n <= u64::MAX) by (nonlinear_arith)
            requires
                k >= 1,
        ;
    } else if forall|m: nat| !#[trigger] scale(u, m) {
        assert(!scale(u, 1) && !scale(u, 1024) && !scale(u, 1048576) && !scale(u, 1073741824)
            && !scale(u, 1099511627776));
    }
}

proof fn lemma_digit_run(d: Seq<char>, rest: Seq<char>)
    requires
        forall|i: int| 0 <= i < d.len() ==> text::digit(#[trigger] d[i]),
        rest.len() > 0 ==> !text::digit(rest[0]),
    ensures
        detect::digit_run(d + rest) == d.len(),
    decreases d.len(),
{
    if d.len() > 0 {
        assert((d + rest)[0] == d[0]);
        assert((d + rest).skip(1) =~= d.skip(1) + rest);
        assert forall|i: int| 0 <= i < d.skip(1).len() implies text::digit(
            #[trigger] d.skip(1)[i],
        ) by {
            assert(d.skip(1)[i] == d[i + 1]);
        }
        lemma_digit_run(d.skip(1), rest);
    } else {
        assert(d + rest =~= rest);
    }
}

proof fn lemma_units(u: Seq<char>)
    ensures
        ({
            let m = detect::unit_bytes(u.map_values(|ch: char| text::upper(ch)));
            &&& scale(u, 1) == (m == Some(1u64))
            &&& scale(u, 1024) == (m == Some(1024u64))
            &&& scale(u, 1048576) == (m == Some(1048576u64))
            &&& scale(u, 1073741824) == (m == Some(1073741824u64))
            &&& scale(u, 1099511627776) == (m == Some(1099511627776u64))
            &&& m matches Some(x) ==> x == 1 || x == 1024 || x == 1048576 || x == 1073741824 || x
                == 1099511627776
        }),
{
    let up = u.map_values(|ch: char| text::upper(ch));
    reveal_strlit("");
    reveal_strlit("K");
    text_laws::law_upper_case_ignores_case(u, "K"@);
    assert("K"@.len() == 1 && "K"@[0] == 'K');
    reveal_strlit("KB");
    text_laws::law_upper_case_ignores_case(u, "KB"@);
    assert("KB"@.len() == 2 && "KB"@[0] == 'K');
    reveal_strlit("KIB");
    text_laws::law_upper_case_ignores_case(u, "KIB"@);
    assert("KIB"@.len() == 3 && "KIB"@[0] == 'K');
    reveal_strlit("M");
    text_laws::law_upper_case_ignores_case(u, "M"@);
    assert("M"@.len() == 1 && "M"@[0] == 'M');
    reveal_strlit("MB");
    text_laws::law_upper_case_ignores_case(u, "MB"@);
    assert("MB"@.len() == 2 && "MB"@[0] == 'M');
    reveal_strlit("MIB");
    text_laws::law_upper_case_ignores_case(u, "MIB"@);
    assert("MIB"@.len() == 3 && "MIB"@[0] == 'M');
    reveal_strlit("G");
    text_laws::law_upper_case_ignores_case(u, "G"@);
    assert("G"@.len() == 1 && "G"@[0] == 'G');
    reveal_strlit("GB");
    text_laws::law_upper_case_ignores_case(u, "GB"@);
    assert("GB"@.len() == 2 && "GB"@[0] == 'G');
    reveal_strlit("GIB");
    text_laws::law_upper_case_ignores_case(u, "GIB"@);
    assert("GIB"@.len() == 3 && "GIB"@[0] == 'G');
    reveal_strlit("T");
    text_laws::law_upper_case_ignores_case(u, "T"@);
    assert("T"@.len() == 1 && "T"@[0] == 'T');
    reveal_strlit("TB");
    text_laws::law_upper_case_ignores_case(u, "TB"@);
    assert("TB"@.len() == 2 && "TB"@[0] == 'T');
    reveal_strlit("TIB");
    text_laws::law_upper_case_ignores_case(u, "TIB"@);
    assert("TIB"@.len() == 3 && "TIB"@[0] == 'T');
    assert(""@.len() == 0);
    if u.len() == 0 {
        assert(up =~= ""@);
    }
}

/// A NUMA node's directory is named `node` and a number; nothing else is.
pub proof fn law_node_names(n: nat, name: Seq<char>)
    ensures
        detect::node_name("node"@ + text::decimal(n)),
        name.len() <= 4 ==> !detect::node_name(name),
        name.len() > 4 && name.take(4) != "node"@ ==> !detect::node_name(name),
        forall|i: int|
            4 <= i < name.len() && !('0' <= #[trigger] name[i] && name[i] <= '9')
                ==> !detect::node_name(name),
{
    reveal_strlit("node");
    let full = "node"@ + text::decimal(n);
    text::law_decimal_roundtrip(n);
    assert(full.take(4) =~= "node"@);
    assert(full.skip(4) =~= text::decimal(n));
    assert forall|i: int|
        4 <= i < name.len() && !('0' <= #[trigger] name[i] && name[i]
            <= '9') implies !detect::node_name(name) by {
        assert(name.skip(4)[i - 4] == name[i]);
        assert(!text::digit(name.skip(4)[i - 4]));
    }
}

/// A counter is what the last line for it says: the number that is the
/// first word behind the colon; other lines do not matter.
pub proof fn law_last_counter_counts(
    lines: Seq<Seq<char>>,
    line: Seq<char>,
    key: Seq<char>,
    before: Option<u64>,
    a: Seq<char>,
    other: Seq<char>,
    b: Seq<char>,
    w: Seq<char>,
    n: nat,
    rest: Seq<char>,
)
    requires
        text_laws::blank(a),
        text_laws::blank(b),
        text_laws::blank(w),
        text_laws::solid(other),
        !other.contains(':'),
        n <= u64::MAX,
        rest.len() > 0 ==> text::white(rest[0]),
        line == a + other + b + seq![':'] + (w + text::decimal(n) + rest),
    ensures
        detect::counter(lines.push(line), key, before) == if other == key {
            Some(n as u64)
        } else {
            detect::counter(lines, key, before)
        },
        detect::counter(Seq::empty(), key, before) == before,
{
    let k = a + other + b;
    let d = text::decimal(n);
    assert(!k.contains(':')) by {
        if k.contains(':') {
            let i = choose|i: int| 0 <= i < k.len() && k[i] == ':';
            if i < a.len() {
                assert(text::white(a[i]));
            } else if i < a.len() + other.len() {
                assert(other[i - a.len()] == ':');
            } else {
                assert(text::white(b[i - a.len() - other.len()]));
            }
        }
    }
    text_laws::law_first_mark(k, ':', w + d + rest);
    text_laws::law_trimmed_is_between(a, other, b);
    text_laws::law_numbers_are_read(n);
    text::law_decimal_roundtrip(n);
    assert forall|i: int| 0 <= i < d.len() implies !text::white(#[trigger] d[i]) by {
        assert(text::digit(d[i]));
    }
    text_laws::law_words(w, d, rest);
    assert(lines.push(line).drop_last() =~= lines);
}

} // verus!
