//! Hardware facts from the text of `/proc/cpuinfo`, `/proc/meminfo` and
//! sysfs. Everything here works on text that was already read; a missing
//! source is given as empty text and yields an unknown fact, never a
//! failure.
use vstd::prelude::*;
use vstd::slice::slice_subrange;
use crate::order;
use crate::text;

verus! {

/// Detected hardware facts. A fact is empty or `None` when its source was
/// missing or could not be read as a number.
#[derive(Clone, Debug)]
pub struct Hardware {
    pub vendor: String,
    pub model: String,
    /// SIMD capabilities as rustc `target-feature` names.
    pub simd: Vec<String>,
    pub l3_bytes: Option<u64>,
    pub physical_cores: Option<usize>,
    pub logical_cores: Option<usize>,
    pub numa_nodes: Option<usize>,
    pub hugepages_total: Option<u64>,
    pub hugepages_free: Option<u64>,
}

impl Default for Hardware {
    fn default() -> (r: Self)
        ensures
            r.vendor@ == Seq::<char>::empty(),
            r.model@ == Seq::<char>::empty(),
            r.simd@ == Seq::<String>::empty(),
            r.l3_bytes is None,
            r.physical_cores is None,
            r.logical_cores is None,
            r.numa_nodes is None,
            r.hugepages_total is None,
            r.hugepages_free is None,
    {
        Hardware {
            vendor: String::new(),
            model: String::new(),
            simd: Vec::new(),
            l3_bytes: None,
            physical_cores: None,
            logical_cores: None,
            numa_nodes: None,
            hugepages_total: None,
            hugepages_free: None,
        }
    }
}

impl Hardware {
    /// Logical/physical ratio (1 on non-SMT machines).
    pub fn threads_per_core(&self) -> (r: Option<usize>)
        ensures
            r == match (self.logical_cores, self.physical_cores) {
                (Some(l), Some(p)) => if p == 0 {
                    None
                } else if l < p {
                    Some(1usize)
                } else {
                    Some((l / p) as usize)
                },
                _ => None,
            },
    {
        match (self.logical_cores, self.physical_cores) {
            (Some(l), Some(p)) => if p == 0 {
                None
            } else if l < p {
                Some(1)
            } else {
                Some(l / p)
            },
            _ => None,
        }
    }

    /// Whether the kernel has allocated any huge pages.
    pub fn hugepages_available(&self) -> (r: bool)
        ensures
            r == match self.hugepages_total {
                Some(n) => n > 0,
                None => false,
            },
    {
        match self.hugepages_total {
            Some(n) => n > 0,
            None => false,
        }
    }
}

// ---------------------------------------------------------------------
// /proc/cpuinfo
// ---------------------------------------------------------------------

/// `/proc/cpuinfo` flag names with their rustc `target-feature` names.
pub open spec fn feature_table() -> Seq<(Seq<char>, Seq<char>)> {
    seq![
        ("avx2"@, "avx2"@),
        ("avx512f"@, "avx512f"@),
        ("avx512bw"@, "avx512bw"@),
        ("avx512cd"@, "avx512cd"@),
        ("avx512dq"@, "avx512dq"@),
        ("avx512vl"@, "avx512vl"@),
        ("sse4_2"@, "sse4.2"@),
        ("ssse3"@, "ssse3"@),
        ("fma"@, "fma"@),
        ("f16c"@, "f16c"@),
        ("bmi1"@, "bmi1"@),
        ("bmi2"@, "bmi2"@),
        ("popcnt"@, "popcnt"@),
        ("lzcnt"@, "lzcnt"@),
        ("movbe"@, "movbe"@),
        ("aes"@, "aes"@),
        ("pclmulqdq"@, "pclmulqdq"@),
    ]
}

fn features() -> (v: Vec<(&'static str, &'static str)>)
    ensures
        v@.len() == feature_table().len(),
        forall|i: int|
            0 <= i < v@.len() ==> (#[trigger] v@[i]).0@ == feature_table()[i].0 && v@[i].1@
                == feature_table()[i].1,
{
    vec![
        ("avx2", "avx2"),
        ("avx512f", "avx512f"),
        ("avx512bw", "avx512bw"),
        ("avx512cd", "avx512cd"),
        ("avx512dq", "avx512dq"),
        ("avx512vl", "avx512vl"),
        ("sse4_2", "sse4.2"),
        ("ssse3", "ssse3"),
        ("fma", "fma"),
        ("f16c", "f16c"),
        ("bmi1", "bmi1"),
        ("bmi2", "bmi2"),
        ("popcnt", "popcnt"),
        ("lzcnt", "lzcnt"),
        ("movbe", "movbe"),
        ("aes", "aes"),
        ("pclmulqdq", "pclmulqdq"),
    ]
}

/// The target features, in table order, whose flag is among `flags`.
pub open spec fn features_from(flags: Seq<Seq<char>>, i: int) -> Seq<Seq<char>>
    decreases feature_table().len() - i,
{
    if i < 0 || i >= feature_table().len() {
        Seq::empty()
    } else {
        let rest = features_from(flags, i + 1);
        if flags.contains(feature_table()[i].0) {
            seq![feature_table()[i].1] + rest
        } else {
            rest
        }
    }
}

/// What has been gathered from the lines read so far.
pub struct CpuScan {
    pub vendor: Seq<char>,
    pub model: Seq<char>,
    pub simd: Seq<Seq<char>>,
    pub logical: Option<int>,
    pub seen_flags: bool,
    pub phys_id: Seq<char>,
    pub cores: Set<(Seq<char>, Seq<char>)>,
}

/// A `key : value` line, both trimmed; a line without a colon is none.
pub open spec fn entry(line: Seq<char>) -> Option<(Seq<char>, Seq<char>)> {
    let k = text::find_from(line, ':', 0);
    if k < line.len() {
        Some((text::trimmed(line.take(k)), text::trimmed(line.skip(k + 1))))
    } else {
        None
    }
}

/// One line of `/proc/cpuinfo`: the first vendor and model and the first
/// flag list count, each `processor` line is a logical core, and each
/// `core id` line names a physical core of the last `physical id`.
pub open spec fn cpu_line(s: CpuScan, line: Seq<char>) -> CpuScan {
    match entry(line) {
        None => s,
        Some((k, v)) => if k == "vendor_id"@ && s.vendor.len() == 0 {
            CpuScan { vendor: v, ..s }
        } else if k == "model name"@ && s.model.len() == 0 {
            CpuScan { model: v, ..s }
        } else if k == "flags"@ && !s.seen_flags {
            CpuScan {
                seen_flags: true,
                simd: s.simd + features_from(text::words(v), 0),
                ..s
            }
        } else if k == "processor"@ {
            CpuScan {
                logical: Some(
                    match s.logical {
                        Some(n) => n + 1,
                        None => 1,
                    },
                ),
                ..s
            }
        } else if k == "physical id"@ {
            CpuScan { phys_id: v, ..s }
        } else if k == "core id"@ {
            CpuScan { cores: s.cores.insert((s.phys_id, v)), ..s }
        } else {
            s
        },
    }
}

/// All lines, in order.
pub open spec fn cpu_lines(s: CpuScan, lines: Seq<Seq<char>>) -> CpuScan
    decreases lines.len(),
{
    if lines.len() == 0 {
        s
    } else {
        cpu_line(cpu_lines(s, lines.drop_last()), lines.last())
    }
}

/// The scan that starts from the facts already in `hw`.
pub open spec fn cpu_start(hw: Hardware) -> CpuScan {
    CpuScan {
        vendor: hw.vendor@,
        model: hw.model@,
        simd: order::texts(hw.simd@),
        logical: match hw.logical_cores {
            Some(n) => Some(n as int),
            None => None,
        },
        seen_flags: false,
        phys_id: Seq::empty(),
        cores: Set::empty(),
    }
}

/// The logical cores that `s` counts.
pub open spec fn counted(s: CpuScan) -> int {
    match s.logical {
        Some(n) => n,
        None => 0,
    }
}

/// A line that names a logical core.
pub open spec fn processor_line(line: Seq<char>) -> bool {
    match entry(line) {
        Some((k, _)) => k == "processor"@,
        None => false,
    }
}

/// The logical core count grows by the number of `processor` lines.
pub proof fn law_logical_cores_are_processor_lines(s: CpuScan, lines: Seq<Seq<char>>)
    ensures
        counted(cpu_lines(s, lines)) == counted(s) + lines.filter(
            |l: Seq<char>| processor_line(l),
        ).len(),
    decreases lines.len(),
{
    reveal_strlit("vendor_id");
    reveal_strlit("model name");
    reveal_strlit("flags");
    reveal_strlit("processor");
    reveal(Seq::filter);
    assert("vendor_id"@[0] != "processor"@[0]);
    if lines.len() > 0 {
        law_logical_cores_are_processor_lines(s, lines.drop_last());
    }
}

/// A core that was already seen in its package adds no physical core.
pub proof fn law_physical_cores_are_distinct(s: CpuScan, line: Seq<char>)
    requires
        entry(line) is Some,
        (entry(line)->0).0 == "core id"@,
        s.cores.contains((s.phys_id, (entry(line)->0).1)),
    ensures
        cpu_line(s, line).cores == s.cores,
{
    reveal_strlit("vendor_id");
    reveal_strlit("model name");
    reveal_strlit("flags");
    reveal_strlit("processor");
    reveal_strlit("physical id");
    reveal_strlit("core id");
    assert(s.cores.insert((s.phys_id, (entry(line)->0).1)) =~= s.cores);
}

fn entry_of<'a>(line: &'a [char]) -> (r: Option<(&'a [char], &'a [char])>)
    ensures
        match r {
            Some((k, v)) => entry(line@) == Some((k@, v@)),
            None => entry(line@) is None,
        },
{
    proof {
        text::lemma_find_from(line@, ':', 0);
    }
    match text::split_once(line, ':') {
        Some((k, v)) => Some((text::trim(k), text::trim(v))),
        None => None,
    }
}

/// Append the target features that a flag list enables.
fn push_features(simd: &mut Vec<String>, flags: &[char])
    ensures
        order::texts(final(simd)@) == order::texts(old(simd)@) + features_from(text::words(flags@), 0),
{
    let words = text::split_whitespace(flags);
    let table = features();
    let ghost wv = text::words(flags@);
    let ghost start = order::texts(simd@);
    let mut i: usize = 0;
    assert(order::texts(simd@) + features_from(wv, 0) =~= start + features_from(wv, 0));
    while i < table.len()
        invariant
            i <= table@.len(),
            table@.len() == feature_table().len(),
            forall|j: int|
                0 <= j < table@.len() ==> (#[trigger] table@[j]).0@ == feature_table()[j].0
                    && table@[j].1@ == feature_table()[j].1,
            wv == text::slice_views(words@),
            order::texts(simd@) + features_from(wv, i as int) == start + features_from(wv, 0),
        decreases table@.len() - i,
    {
        let flag: &'static str = table[i].0;
        let mut found: bool = false;
        let mut j: usize = 0;
        while j < words.len() && !found
            invariant
                j <= words@.len(),
                wv == text::slice_views(words@),
                found ==> wv.contains(flag@),
                !found ==> forall|x: int| 0 <= x < j ==> wv[x] != flag@,
            decreases words@.len() - j + if found { 0int } else { 1 },
        {
            assert(wv[j as int] == words@[j as int]@);
            if text::is_text(words[j], flag) {
                found = true;
            } else {
                j += 1;
            }
        }
        let ghost had = simd@;
        if found {
            let name: &'static str = table[i].1;
            simd.push(name.to_string());
            proof {
                assert(order::texts(simd@) =~= order::texts(had).push(feature_table()[i as int].1));
                assert(order::texts(simd@) + features_from(wv, i + 1) =~= order::texts(had) + features_from(
                    wv,
                    i as int,
                ));
            }
        }
        i += 1;
    }
    assert(order::texts(simd@) + Seq::<Seq<char>>::empty() =~= order::texts(simd@));
}

/// The distinct pairs in a list.
pub open spec fn pair_views(v: Seq<(Vec<char>, Vec<char>)>) -> Seq<(Seq<char>, Seq<char>)> {
    v.map_values(|p: (Vec<char>, Vec<char>)| (p.0@, p.1@))
}

fn add_pair(v: &mut Vec<(Vec<char>, Vec<char>)>, a: &Vec<char>, b: &[char])
    requires
        pair_views(old(v)@).no_duplicates(),
    ensures
        pair_views(final(v)@).no_duplicates(),
        pair_views(final(v)@).to_set() == pair_views(old(v)@).to_set().insert((a@, b@)),
        final(v)@.len() <= old(v)@.len() + 1,
{
    let ghost pv = pair_views(v@);
    let mut i: usize = 0;
    while i < v.len()
        invariant
            i <= v@.len(),
            pv == pair_views(v@),
            pv.no_duplicates(),
            v@ == old(v)@,
            forall|j: int| 0 <= j < i ==> pv[j] != (a@, b@),
        decreases v@.len() - i,
    {
        assert(pv[i as int] == (v@[i as int].0@, v@[i as int].1@));
        if text::eq_chars(v[i].0.as_slice(), a.as_slice()) && text::eq_chars(v[i].1.as_slice(), b) {
            proof {
                assert(pv.contains((a@, b@)));
                assert(pv.to_set().insert((a@, b@)) =~= pv.to_set());
            }
            return;
        }
        i += 1;
    }
    let ghost had = v@;
    v.push((copy_chars(a.as_slice()), copy_chars(b)));
    proof {
        assert(pair_views(v@) =~= pv.push((a@, b@)));
        assert(pv.push((a@, b@)).to_set() =~= pv.to_set().insert((a@, b@))) by {
            assert forall|x| pv.to_set().insert((a@, b@)).contains(x) implies pv.push(
                (a@, b@),
            ).to_set().contains(x) by {
                if x == (a@, b@) {
                    assert(pv.push((a@, b@))[pv.len() as int] == x);
                } else {
                    let j = choose|j: int| 0 <= j < pv.len() && pv[j] == x;
                    assert(pv.push((a@, b@))[j] == x);
                }
            }
        }
    }
}

fn copy_chars(s: &[char]) -> (v: Vec<char>)
    ensures
        v@ == s@,
{
    let mut v: Vec<char> = Vec::new();
    let mut i: usize = 0;
    while i < s.len()
        invariant
            i <= s@.len(),
            v@ == s@.take(i as int),
        decreases s@.len() - i,
    {
        v.push(s[i]);
        i += 1;
        assert(s@.take(i as int) =~= s@.take(i - 1).push(s@[i - 1]));
    }
    assert(s@.take(i as int) =~= s@);
    v
}

proof fn lemma_count_bound(s: CpuScan, lines: Seq<Seq<char>>)
    ensures
        counted(s) <= counted(cpu_lines(s, lines)) <= counted(s) + lines.len(),
    decreases lines.len(),
{
    if lines.len() > 0 {
        lemma_count_bound(s, lines.drop_last());
    }
}

/// Read `/proc/cpuinfo` text into `hw`: vendor, model name, SIMD features,
/// logical cores (`processor` lines) and physical cores (distinct
/// `physical id`/`core id` pairs).
pub fn parse_cpuinfo(cpuinfo: &str, hw: &mut Hardware)
    requires
        counted(cpu_start(*old(hw))) + text::text_lines(cpuinfo@).len() <= usize::MAX,
    ensures
        ({
            let s = cpu_lines(cpu_start(*old(hw)), text::text_lines(cpuinfo@));
            &&& final(hw).vendor@ == s.vendor
            &&& final(hw).model@ == s.model
            &&& order::texts(final(hw).simd@) == s.simd
            &&& final(hw).logical_cores == match s.logical {
                Some(n) => Some(n as usize),
                None => None,
            }
            &&& s.cores.finite()
            &&& final(hw).physical_cores == if s.cores.len() == 0 {
                None
            } else {
                Some(s.cores.len() as usize)
            }
            &&& s.cores.len() <= text::text_lines(cpuinfo@).len()
        }),
        final(hw).l3_bytes == old(hw).l3_bytes,
        final(hw).numa_nodes == old(hw).numa_nodes,
        final(hw).hugepages_total == old(hw).hugepages_total,
        final(hw).hugepages_free == old(hw).hugepages_free,
{
    let cs = text::to_chars(cpuinfo);
    let lines = text::lines(cs.as_slice());
    let ghost all = text::text_lines(cpuinfo@);
    let ghost start = cpu_start(*hw);
    let mut phys_id: Vec<char> = Vec::new();
    let mut cores: Vec<(Vec<char>, Vec<char>)> = Vec::new();
    let mut seen_flags: bool = false;
    let mut i: usize = 0;
    proof {
        assert(all.len() == lines@.len());
        assert(phys_id@ =~= Seq::<char>::empty());
        assert(pair_views(cores@).to_set() =~= Set::<(Seq<char>, Seq<char>)>::empty());
    }
    while i < lines.len()
        invariant
            i <= lines@.len(),
            all == text::slice_views(lines@),
            start == cpu_start(*old(hw)),
            counted(start) + all.len() <= usize::MAX,
            ({
                let s = cpu_lines(start, all.take(i as int));
                &&& hw.vendor@ == s.vendor
                &&& hw.model@ == s.model
                &&& order::texts(hw.simd@) == s.simd
                &&& match hw.logical_cores {
                    Some(n) => s.logical == Some(n as int),
                    None => s.logical is None,
                }
                &&& seen_flags == s.seen_flags
                &&& phys_id@ == s.phys_id
                &&& pair_views(cores@).to_set() == s.cores
            }),
            pair_views(cores@).no_duplicates(),
            cores@.len() <= i,
            hw.l3_bytes == old(hw).l3_bytes,
            hw.numa_nodes == old(hw).numa_nodes,
            hw.hugepages_total == old(hw).hugepages_total,
            hw.hugepages_free == old(hw).hugepages_free,
        decreases lines@.len() - i,
    {
        let line: &[char] = lines[i];
        proof {
            assert(all.take(i + 1).drop_last() =~= all.take(i as int));
            assert(all.take(i + 1).last() == line@);
            lemma_count_bound(start, all.take(i as int));
        }
        if let Some((k, v)) = entry_of(line) {
            if text::is_text(k, "vendor_id") && is_blank(&hw.vendor) {
                hw.vendor = text::string_of(v);
            } else if text::is_text(k, "model name") && is_blank(&hw.model) {
                hw.model = text::string_of(v);
            } else if text::is_text(k, "flags") && !seen_flags {
                seen_flags = true;
                push_features(&mut hw.simd, v);
            } else if text::is_text(k, "processor") {
                hw.logical_cores = Some(
                    match hw.logical_cores {
                        Some(n) => n + 1,
                        None => 1,
                    },
                );
            } else if text::is_text(k, "physical id") {
                phys_id = copy_chars(v);
            } else if text::is_text(k, "core id") {
                add_pair(&mut cores, &phys_id, v);
            }
        }
        i += 1;
    }
    proof {
        assert(all.take(i as int) =~= all);
        pair_views(cores@).unique_seq_to_set();
    }
    let n: usize = cores.len();
    hw.physical_cores = if n == 0 {
        None
    } else {
        Some(n)
    };
}

fn is_blank(s: &String) -> (r: bool)
    ensures
        r == (s@.len() == 0),
{
    let cs = text::to_chars(s.as_str());
    cs.len() == 0
}

// ---------------------------------------------------------------------
// Cache size
// ---------------------------------------------------------------------

/// How many characters at the front are digits.
pub open spec fn digit_run(s: Seq<char>) -> nat
    decreases s.len(),
{
    if s.len() == 0 || !text::digit(s[0]) {
        0
    } else {
        1 + digit_run(s.skip(1))
    }
}

/// Bytes per unit, for a unit in upper case.
pub open spec fn unit_bytes(unit: Seq<char>) -> Option<u64> {
    if unit == ""@ {
        Some(1)
    } else if unit == "K"@ || unit == "KB"@ || unit == "KIB"@ {
        Some(0x400)
    } else if unit == "M"@ || unit == "MB"@ || unit == "MIB"@ {
        Some(0x10_0000)
    } else if unit == "G"@ || unit == "GB"@ || unit == "GIB"@ {
        Some(0x4000_0000)
    } else if unit == "T"@ || unit == "TB"@ || unit == "TIB"@ {
        Some(0x100_0000_0000)
    } else {
        None
    }
}

/// The byte count that a size text gives: digits, then a unit in either
/// case with or without white space around it. A product beyond 64 bits is
/// no size.
pub open spec fn size_of(s: Seq<char>) -> Option<u64> {
    let t = text::trimmed(s);
    let d = digit_run(t) as int;
    let num = text::unsigned_value(text::trimmed(t.take(d)));
    let unit = text::trimmed(t.skip(d)).map_values(|c: char| text::upper(c));
    match (num, unit_bytes(unit)) {
        (Some(n), Some(m)) => if n <= u64::MAX && n * m <= u64::MAX {
            Some((n * m) as u64)
        } else {
            None
        },
        _ => None,
    }
}

/// Parse a cache size such as `3072K`, `32M`, `3 MiB` or a bare byte
/// count.
pub fn parse_size(s: &str) -> (r: Option<u64>)
    ensures
        r == size_of(s@),
{
    let cs = text::to_chars(s);
    let t = text::trim(cs.as_slice());
    let mut d: usize = 0;
    assert(t@.skip(0) =~= t@);
    while d < t.len() && '0' <= t[d] && t[d] <= '9'
        invariant
            d <= t@.len(),
            d + digit_run(t@.skip(d as int)) == digit_run(t@),
        decreases t@.len() - d,
    {
        assert(t@.skip(d as int).skip(1) =~= t@.skip(d + 1));
        assert(t@.skip(d as int)[0] == t@[d as int]);
        d += 1;
    }
    proof {
        if d < t@.len() {
            assert(t@.skip(d as int)[0] == t@[d as int]);
        }
        assert(digit_run(t@.skip(d as int)) == 0);
    }
    let head = slice_subrange(t, 0, d);
    let tail = slice_subrange(t, d, t.len());
    proof {
        assert(head@ =~= t@.take(d as int));
        assert(tail@ =~= t@.skip(d as int));
    }
    let num: u64 = match text::parse_u64(text::trim(head)) {
        Some(n) => n,
        None => {
            return None;
        },
    };
    let unit = text::to_ascii_uppercase(text::trim(tail));
    let u = unit.as_slice();
    let mult: u64 = if text::is_text(u, "") {
        1
    } else if text::is_text(u, "K") || text::is_text(u, "KB") || text::is_text(u, "KIB") {
        0x400
    } else if text::is_text(u, "M") || text::is_text(u, "MB") || text::is_text(u, "MIB") {
        0x10_0000
    } else if text::is_text(u, "G") || text::is_text(u, "GB") || text::is_text(u, "GIB") {
        0x4000_0000
    } else if text::is_text(u, "T") || text::is_text(u, "TB") || text::is_text(u, "TIB") {
        0x100_0000_0000
    } else {
        return None;
    };
    num.checked_mul(mult)
}

// ---------------------------------------------------------------------
// NUMA nodes
// ---------------------------------------------------------------------

/// A sysfs node directory: `node` and one or more digits.
pub open spec fn node_name(name: Seq<char>) -> bool {
    name.len() > 4 && name.take(4) == "node"@ && text::all_digits(name.skip(4))
}

fn is_node(name: &str) -> (r: bool)
    ensures
        r == node_name(name@),
{
    let cs = text::to_chars(name);
    let s = cs.as_slice();
    if s.len() <= 4 {
        return false;
    }
    let head = slice_subrange(s, 0, 4);
    assert(head@ =~= s@.take(4));
    if !text::is_text(head, "node") {
        return false;
    }
    let mut i: usize = 4;
    while i < s.len()
        invariant
            4 <= i <= s@.len(),
            s@ == name@,
            forall|j: int| 0 <= j < i - 4 ==> text::digit(#[trigger] s@.skip(4)[j]),
        decreases s@.len() - i,
    {
        assert(s@.skip(4)[i - 4] == s@[i as int]);
        if !('0' <= s[i] && s[i] <= '9') {
            assert(!text::digit(s@.skip(4)[i - 4]));
            return false;
        }
        i += 1;
    }
    true
}

/// The NUMA nodes among the entries of the sysfs node directory; a
/// machine without any reports none.
pub fn count_nodes(names: &Vec<String>) -> (r: Option<usize>)
    ensures
        ({
            let n = order::texts(names@).filter(|s: Seq<char>| node_name(s)).len();
            r == if n == 0 {
                None
            } else {
                Some(n as usize)
            }
        }),
{
    let keep = Ghost(|s: Seq<char>| node_name(s));
    let ghost all = order::texts(names@);
    let mut n: usize = 0;
    let mut i: usize = 0;
    proof {
        reveal(Seq::filter);
        assert(all.take(0).filter(keep@).len() == 0);
    }
    while i < names.len()
        invariant
            i <= names@.len(),
            all == order::texts(names@),
            keep@ == (|s: Seq<char>| node_name(s)),
            n <= i,
            n == all.take(i as int).filter(keep@).len(),
        decreases names@.len() - i,
    {
        proof {
            reveal(Seq::filter);
            assert(all.take(i + 1).drop_last() =~= all.take(i as int));
            assert(all.take(i + 1).last() == names@[i as int]@);
        }
        if is_node(names[i].as_str()) {
            n += 1;
        }
        i += 1;
    }
    assert(all.take(i as int) =~= all);
    if n == 0 {
        None
    } else {
        Some(n)
    }
}

// ---------------------------------------------------------------------
// /proc/meminfo
// ---------------------------------------------------------------------

/// The number that a counter line gives: its first word; zero when that
/// is no 64-bit number.
pub open spec fn first_number(v: Seq<char>) -> u64 {
    let w = text::words(v);
    if w.len() == 0 {
        0
    } else {
        match text::unsigned_value(w[0]) {
            Some(n) => if n <= u64::MAX {
                n as u64
            } else {
                0
            },
            None => 0,
        }
    }
}

/// The last value that the lines give for `key`, or else `before`.
pub open spec fn counter(
    lines: Seq<Seq<char>>,
    key: Seq<char>,
    before: Option<u64>,
) -> Option<u64>
    decreases lines.len(),
{
    if lines.len() == 0 {
        before
    } else {
        let line = lines.last();
        let c = text::find_from(line, ':', 0);
        if c < line.len() && text::trimmed(line.take(c)) == key {
            Some(first_number(line.skip(c + 1)))
        } else {
            counter(lines.drop_last(), key, before)
        }
    }
}

fn number_in(v: &[char]) -> (r: u64)
    ensures
        r == first_number(v@),
{
    let words = text::split_whitespace(v);
    let ghost wv = text::words(v@);
    assert(wv.len() == words@.len());
    if words.len() == 0 {
        return 0;
    }
    assert(wv[0] == words@[0]@);
    match text::parse_u64(words[0]) {
        Some(n) => n,
        None => 0,
    }
}

/// Read the huge page counters of `/proc/meminfo` text into `hw`.
pub fn parse_meminfo(meminfo: &str, hw: &mut Hardware)
    ensures
        final(hw).hugepages_total == counter(
            text::text_lines(meminfo@),
            "HugePages_Total"@,
            old(hw).hugepages_total,
        ),
        final(hw).hugepages_free == counter(
            text::text_lines(meminfo@),
            "HugePages_Free"@,
            old(hw).hugepages_free,
        ),
        final(hw).vendor == old(hw).vendor,
        final(hw).model == old(hw).model,
        final(hw).simd == old(hw).simd,
        final(hw).l3_bytes == old(hw).l3_bytes,
        final(hw).physical_cores == old(hw).physical_cores,
        final(hw).logical_cores == old(hw).logical_cores,
        final(hw).numa_nodes == old(hw).numa_nodes,
{
    let cs = text::to_chars(meminfo);
    let lines = text::lines(cs.as_slice());
    let ghost all = text::text_lines(meminfo@);
    let mut i: usize = 0;
    proof {
        assert(all.len() == lines@.len());
        reveal_strlit("HugePages_Total");
        reveal_strlit("HugePages_Free");
        assert("HugePages_Total"@.len() != "HugePages_Free"@.len());
    }
    while i < lines.len()
        invariant
            i <= lines@.len(),
            all == text::slice_views(lines@),
            "HugePages_Total"@.len() != "HugePages_Free"@.len(),
            hw.hugepages_total == counter(
                all.take(i as int),
                "HugePages_Total"@,
                old(hw).hugepages_total,
            ),
            hw.hugepages_free == counter(
                all.take(i as int),
                "HugePages_Free"@,
                old(hw).hugepages_free,
            ),
            hw.vendor == old(hw).vendor,
            hw.model == old(hw).model,
            hw.simd == old(hw).simd,
            hw.l3_bytes == old(hw).l3_bytes,
            hw.physical_cores == old(hw).physical_cores,
            hw.logical_cores == old(hw).logical_cores,
            hw.numa_nodes == old(hw).numa_nodes,
        decreases lines@.len() - i,
    {
        let line: &[char] = lines[i];
        proof {
            assert(all.take(i + 1).drop_last() =~= all.take(i as int));
            assert(all.take(i + 1).last() == line@);
        }
        if let Some((k, v)) = text::split_once(line, ':') {
            let n: u64 = number_in(v);
            let key = text::trim(k);
            if text::is_text(key, "HugePages_Total") {
                hw.hugepages_total = Some(n);
            } else if text::is_text(key, "HugePages_Free") {
                hw.hugepages_free = Some(n);
            }
        }
        i += 1;
    }
    assert(all.take(i as int) =~= all);
}

// ---------------------------------------------------------------------
// All facts together
// ---------------------------------------------------------------------

/// All facts from the texts of their sources: `/proc/cpuinfo`, the size of
/// the L3 cache, the entry names of the sysfs node directory, and
/// `/proc/meminfo`. A source that could not be read is empty or `None`.
pub fn detect(
    cpuinfo: &str,
    l3_size: Option<String>,
    node_names: Option<Vec<String>>,
    meminfo: &str,
) -> (hw: Hardware)
    ensures
        ({
            let start = CpuScan {
                vendor: Seq::empty(),
                model: Seq::empty(),
                simd: Seq::empty(),
                logical: None,
                seen_flags: false,
                phys_id: Seq::empty(),
                cores: Set::empty(),
            };
            let s = cpu_lines(start, text::text_lines(cpuinfo@));
            &&& hw.vendor@ == s.vendor
            &&& hw.model@ == s.model
            &&& order::strictly_sorted(order::texts(hw.simd@))
            &&& order::texts(hw.simd@).to_set() == s.simd.to_set()
            &&& hw.logical_cores == match s.logical {
                Some(n) => Some(n as usize),
                None => None,
            }
            &&& hw.physical_cores == if s.cores.len() == 0 {
                None
            } else {
                Some(s.cores.len() as usize)
            }
        }),
        hw.l3_bytes == match l3_size {
            Some(s) => size_of(s@),
            None => None,
        },
        hw.numa_nodes == match node_names {
            Some(v) => {
                let n = order::texts(v@).filter(|s: Seq<char>| node_name(s)).len();
                if n == 0 {
                    None
                } else {
                    Some(n as usize)
                }
            },
            None => None,
        },
        hw.hugepages_total == counter(text::text_lines(meminfo@), "HugePages_Total"@, None),
        hw.hugepages_free == counter(text::text_lines(meminfo@), "HugePages_Free"@, None),
{
    let mut hw = Hardware::default();
    let cs = text::to_chars(cpuinfo);
    let _len: usize = cs.len();
    proof {
        text::lemma_lines_bound(cpuinfo@);
        assert(order::texts(hw.simd@) =~= Seq::<Seq<char>>::empty());
    }
    parse_cpuinfo(cpuinfo, &mut hw);
    hw.l3_bytes = match l3_size {
        Some(s) => parse_size(s.as_str()),
        None => None,
    };
    hw.numa_nodes = match node_names {
        Some(v) => count_nodes(&v),
        None => None,
    };
    parse_meminfo(meminfo, &mut hw);
    let sorted = order::sort_dedup(&hw.simd);
    hw.simd = sorted;
    hw
}

} // verus!
