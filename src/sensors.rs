//! The sensor report as a tree of named chips, features and inputs, and the
//! rules that pick labelled temperatures out of it.
use vstd::prelude::*;
use crate::text::{
    decimal_milli, int_text, int_value, lemma_int_text_injective, parse_int, parse_milli, push_int,
    same_text, second_word, second_word_of, trim_text, trimmed,
};
use crate::sample::{Sample, insert_entry, lemma_find_label};

verus! {

/// One input of a feature; `number` holds the text of its value when that
/// value is a number.
pub struct Input {
    pub name: String,
    pub number: Option<String>,
}

/// A feature of a chip, such as a package or a core, with its inputs.
pub struct Feature {
    pub name: String,
    pub inputs: Vec<Input>,
}

/// A sensor chip with its features.
pub struct Chip {
    pub name: String,
    pub features: Vec<Feature>,
}

/// A whole sensor report: its chips, in the order they were listed.
pub struct SensorData {
    pub chips: Vec<Chip>,
}

pub open spec fn first_named(names: Seq<Seq<char>>, key: Seq<char>) -> Option<int>
    decreases names.len(),
{
    if names.len() == 0 {
        None
    } else {
        match first_named(names.drop_last(), key) {
            Some(j) => Some(j),
            None => if names.last() == key {
                Some(names.len() - 1)
            } else {
                None
            },
        }
    }
}

pub open spec fn chip_names(cs: Seq<Chip>) -> Seq<Seq<char>> {
    cs.map_values(|c: Chip| c.name@)
}

pub open spec fn feature_names(fs: Seq<Feature>) -> Seq<Seq<char>> {
    fs.map_values(|f: Feature| f.name@)
}

pub open spec fn input_names(is: Seq<Input>) -> Seq<Seq<char>> {
    is.map_values(|i: Input| i.name@)
}

/// Thousandths in the input named `key` of feature `f`, when it is a number.
pub open spec fn input_value(f: Feature, key: Seq<char>) -> Option<int> {
    match first_named(input_names(f.inputs@), key) {
        Some(j) => match f.inputs@[j].number {
            Some(t) => decimal_milli(t@),
            None => None,
        },
        None => None,
    }
}

/// The features of the first chip named `chip`, none where there is none.
pub open spec fn chip_features(d: SensorData, chip: Seq<char>) -> Seq<Feature> {
    match first_named(chip_names(d.chips@), chip) {
        Some(j) => d.chips@[j].features@,
        None => Seq::empty(),
    }
}

/// The reading at the path `chip`, `feature`, `input`.
pub open spec fn path_value(d: SensorData, chip: Seq<char>, feature: Seq<char>, input: Seq<char>) -> Option<int> {
    let fs = chip_features(d, chip);
    match first_named(feature_names(fs), feature) {
        Some(j) => input_value(fs[j], input),
        None => None,
    }
}

pub open spec fn core_chip() -> Seq<char> {
    seq!['c', 'o', 'r', 'e', 't', 'e', 'm', 'p', '-', 'i', 's', 'a', '-', '0', '0', '0', '0']
}

pub open spec fn package_feature() -> Seq<char> {
    seq!['P', 'a', 'c', 'k', 'a', 'g', 'e', ' ', 'i', 'd', ' ', '0']
}

pub open spec fn acpi_chip() -> Seq<char> {
    seq!['a', 'c', 'p', 'i', 't', 'z', '-', 'a', 'c', 'p', 'i', '-', '0']
}

pub open spec fn acpi_feature() -> Seq<char> {
    seq!['t', 'e', 'm', 'p', '1']
}

pub open spec fn first_input() -> Seq<char> {
    seq!['t', 'e', 'm', 'p', '1', '_', 'i', 'n', 'p', 'u', 't']
}

pub open spec fn cpu_label() -> Seq<char> {
    seq!['C', 'P', 'U']
}

pub open spec fn acpi_label() -> Seq<char> {
    seq!['A', 'C', 'P', 'I']
}

pub open spec fn gpu_label() -> Seq<char> {
    seq!['G', 'P', 'U']
}

pub open spec fn core_label(i: int) -> Seq<char> {
    seq!['C', 'o', 'r', 'e', '#'] + int_text(i)
}

/// Name of the input that holds the temperature of core `i`: its channel is
/// the core index plus two.
pub open spec fn core_input(i: int) -> Seq<char> {
    seq!['t', 'e', 'm', 'p'] + int_text(i + 2) + seq!['_', 'i', 'n', 'p', 'u', 't']
}

pub open spec fn is_core_name(s: Seq<char>) -> bool {
    s.len() >= 4 && s.take(4) == seq!['C', 'o', 'r', 'e']
}

/// The core index and reading that feature `f` gives, if any.
pub open spec fn core_reading(f: Feature) -> Option<(i64, i64)> {
    if is_core_name(f.name@) {
        match second_word(f.name@) {
            Some(w) => match int_value(w) {
                Some(i) => match input_value(f, core_input(i)) {
                    Some(v) => Some((i as i64, v as i64)),
                    None => None,
                },
                None => None,
            },
            None => None,
        }
    } else {
        None
    }
}

/// Core readings of the features `fs`, in their order.
pub open spec fn core_readings(fs: Seq<Feature>) -> Seq<(i64, i64)>
    decreases fs.len(),
{
    if fs.len() == 0 {
        Seq::empty()
    } else {
        match core_reading(fs.last()) {
            Some(r) => core_readings(fs.drop_last()).push(r),
            None => core_readings(fs.drop_last()),
        }
    }
}

/// The last reading for core `i` in `rs`.
pub open spec fn last_for(rs: Seq<(i64, i64)>, i: i64) -> Option<i64>
    decreases rs.len(),
{
    if rs.len() == 0 {
        None
    } else if rs.last().0 == i {
        Some(rs.last().1)
    } else {
        last_for(rs.drop_last(), i)
    }
}

pub open spec fn strictly_ascending(cs: Seq<(i64, i64)>) -> bool {
    forall|a: int, b: int| 0 <= a < b < cs.len() ==> cs[a].0 < cs[b].0
}

/// `cs` lists each core of `rs` once, by ascending index, with its last reading.
pub open spec fn cores_in_order(cs: Seq<(i64, i64)>, rs: Seq<(i64, i64)>) -> bool {
    &&& strictly_ascending(cs)
    &&& forall|i: i64| #[trigger] last_for(cs, i) == last_for(rs, i)
}

pub open spec fn labelled_cores(cs: Seq<(i64, i64)>) -> Seq<(Seq<char>, i64)> {
    cs.map_values(|c: (i64, i64)| (core_label(c.0 as int), c.1))
}

pub open spec fn opt_entry(label: Seq<char>, v: Option<int>) -> Seq<(Seq<char>, i64)> {
    match v {
        Some(x) => seq![(label, x as i64)],
        None => Seq::empty(),
    }
}

/// The readings of a report, given its cores in order: the CPU package, the
/// ACPI zone, then the cores.
pub open spec fn readings_with(d: SensorData, cs: Seq<(i64, i64)>) -> Seq<(Seq<char>, i64)> {
    opt_entry(cpu_label(), path_value(d, core_chip(), package_feature(), first_input()))
        + opt_entry(acpi_label(), path_value(d, acpi_chip(), acpi_feature(), first_input()))
        + labelled_cores(cs)
}

/// `e` holds the readings of report `d`: the CPU package, the ACPI zone,
/// then the cores by ascending index.
pub open spec fn extracted(d: SensorData, e: Seq<(Seq<char>, i64)>) -> bool {
    exists|cs: Seq<(i64, i64)>|
        cores_in_order(cs, core_readings(chip_features(d, core_chip()))) && e == readings_with(d, cs)
}

proof fn lemma_last_for(cs: Seq<(i64, i64)>, k: i64)
    ensures
        match last_for(cs, k) {
            Some(x) => exists|j: int|
                0 <= j < cs.len() && cs[j] == (k, x) && forall|j2: int|
                    j < j2 < cs.len() ==> #[trigger] cs[j2].0 != k,
            None => forall|j: int| 0 <= j < cs.len() ==> #[trigger] cs[j].0 != k,
        },
    decreases cs.len(),
{
    if cs.len() > 0 {
        lemma_last_for(cs.drop_last(), k);
        assert forall|j: int| 0 <= j < cs.len() - 1 implies #[trigger] cs[j] == cs.drop_last()[j] by {}
        if cs.last().0 != k {
            if let Some(x) = last_for(cs, k) {
                let j = choose|j: int|
                    0 <= j < cs.drop_last().len() && cs.drop_last()[j] == (k, x) && forall|j2: int|
                        j < j2 < cs.drop_last().len() ==> #[trigger] cs.drop_last()[j2].0 != k;
                assert(cs[j] == (k, x));
                assert forall|j2: int| j < j2 < cs.len() implies #[trigger] cs[j2].0 != k by {
                    if j2 < cs.len() - 1 {
                        assert(cs[j2] == cs.drop_last()[j2]);
                    }
                }
            }
        } else {
            assert(cs[cs.len() - 1] == (k, cs.last().1));
        }
    }
}

proof fn lemma_lookup_at(cs: Seq<(i64, i64)>, j: int)
    requires
        strictly_ascending(cs),
        0 <= j < cs.len(),
    ensures
        last_for(cs, cs[j].0) == Some(cs[j].1),
{
    lemma_last_for(cs, cs[j].0);
    match last_for(cs, cs[j].0) {
        Some(x) => {
            let j1 = choose|j1: int|
                0 <= j1 < cs.len() && cs[j1] == (cs[j].0, x) && forall|j2: int|
                    j1 < j2 < cs.len() ==> #[trigger] cs[j2].0 != cs[j].0;
            if j1 < j {
                assert(cs[j].0 != cs[j].0);
            } else if j1 > j {
                assert(cs[j].0 < cs[j1].0);
            }
        },
        None => {
            assert(cs[j].0 != cs[j].0);
        },
    }
}

/// Records reading `v` for core `i` in `cs`, kept in ascending order of index.
fn place(cs: &mut Vec<(i64, i64)>, i: i64, v: i64)
    requires
        strictly_ascending(old(cs)@),
    ensures
        strictly_ascending(final(cs)@),
        forall|k: i64| #[trigger]
            last_for(final(cs)@, k) == if k == i {
                Some(v)
            } else {
                last_for(old(cs)@, k)
            },
{
    let ghost o = cs@;
    let mut p: usize = 0;
    while p < cs.len() && cs[p].0 < i
        invariant
            cs@ == o,
            p <= cs.len(),
            forall|j: int| 0 <= j < p ==> #[trigger] cs@[j].0 < i,
        decreases cs.len() - p,
    {
        p = p + 1;
    }
    if p < cs.len() && cs[p].0 == i {
        cs.set(p, (i, v));
    } else {
        cs.insert(p, (i, v));
    }
    let ghost n = cs@;
    assert(strictly_ascending(n)) by {
        assert forall|a: int, b: int| 0 <= a < b < n.len() implies n[a].0 < n[b].0 by {
            if p < o.len() && o[p as int].0 == i {
                assert(n[a].0 == o[a].0);
                assert(n[b].0 == o[b].0);
            } else {
                if a < p && b > p {
                    assert(n[b] == o[b - 1]);
                    if b - 1 > p {
                        assert(o[p as int].0 < o[b - 1].0);
                    }
                } else if a > p {
                    assert(n[a] == o[a - 1]);
                    assert(n[b] == o[b - 1]);
                } else if b > p {
                    assert(n[b] == o[b - 1]);
                }
            }
        }
    }
    assert forall|k: i64| #[trigger]
        last_for(n, k) == if k == i {
            Some(v)
        } else {
            last_for(o, k)
        } by {
        lemma_last_for(n, k);
        lemma_last_for(o, k);
        if exists|j: int| 0 <= j < n.len() && n[j].0 == k {
            let j = choose|j: int| 0 <= j < n.len() && n[j].0 == k;
            lemma_lookup_at(n, j);
            if k != i {
                let jo = if p < o.len() && o[p as int].0 == i || j < p {
                    j
                } else {
                    j - 1
                };
                assert(o[jo] == n[j]);
                lemma_lookup_at(o, jo);
            } else if p < o.len() && o[p as int].0 == i {
                assert(n[p as int] == (i, v));
                lemma_lookup_at(n, p as int);
            } else {
                assert(n[p as int] == (i, v));
                lemma_lookup_at(n, p as int);
            }
        } else {
            assert(n[p as int].0 == i);
            if last_for(o, k) is Some {
                let x = last_for(o, k).unwrap();
                let jo = choose|jo: int|
                    0 <= jo < o.len() && o[jo] == (k, x) && forall|j2: int|
                        jo < j2 < o.len() ==> #[trigger] o[j2].0 != k;
                if p < o.len() && o[p as int].0 == i || jo < p {
                    assert(n[jo].0 == k);
                } else {
                    assert(n[jo + 1].0 == k);
                }
            }
        }
    }
}

pub proof fn lemma_first_named(names: Seq<Seq<char>>, key: Seq<char>)
    ensures
        match first_named(names, key) {
            Some(j) => 0 <= j < names.len() && names[j] == key && forall|i: int|
                0 <= i < j ==> #[trigger] names[i] != key,
            None => forall|i: int| 0 <= i < names.len() ==> #[trigger] names[i] != key,
        },
    decreases names.len(),
{
    if names.len() > 0 {
        lemma_first_named(names.drop_last(), key);
        assert forall|i: int| 0 <= i < names.len() - 1 implies #[trigger] names[i]
            == names.drop_last()[i] by {}
    }
}

proof fn lemma_first_at(names: Seq<Seq<char>>, key: Seq<char>, n: int)
    requires
        0 <= n <= names.len(),
        forall|i: int| 0 <= i < n ==> #[trigger] names[i] != key,
        n < names.len() ==> names[n] == key,
    ensures
        first_named(names, key) == if n < names.len() {
            Some(n)
        } else {
            None::<int>
        },
{
    lemma_first_named(names, key);
}

fn find_chip(cs: &Vec<Chip>, key: &str) -> (r: Option<usize>)
    ensures
        match first_named(chip_names(cs@), key@) {
            Some(j) => r is Some && r.unwrap() as int == j,
            None => r is None,
        },
{
    let mut i: usize = 0;
    while i < cs.len()
        invariant
            i <= cs.len(),
            forall|j: int| 0 <= j < i ==> #[trigger] chip_names(cs@)[j] != key@,
        decreases cs.len() - i,
    {
        if same_text(cs[i].name.as_str(), key) {
            proof {
                lemma_first_at(chip_names(cs@), key@, i as int);
            }
            return Some(i);
        }
        i = i + 1;
    }
    proof {
        lemma_first_at(chip_names(cs@), key@, i as int);
    }
    None
}

fn find_feature(fs: &Vec<Feature>, key: &str) -> (r: Option<usize>)
    ensures
        match first_named(feature_names(fs@), key@) {
            Some(j) => r is Some && r.unwrap() as int == j,
            None => r is None,
        },
{
    let mut i: usize = 0;
    while i < fs.len()
        invariant
            i <= fs.len(),
            forall|j: int| 0 <= j < i ==> #[trigger] feature_names(fs@)[j] != key@,
        decreases fs.len() - i,
    {
        if same_text(fs[i].name.as_str(), key) {
            proof {
                lemma_first_at(feature_names(fs@), key@, i as int);
            }
            return Some(i);
        }
        i = i + 1;
    }
    proof {
        lemma_first_at(feature_names(fs@), key@, i as int);
    }
    None
}

/// The reading in the input named `key` of `f`, when it is a number.
pub fn read_input(f: &Feature, key: &str) -> (r: Option<i64>)
    ensures
        match input_value(*f, key@) {
            Some(v) => r == Some(v as i64),
            None => r is None,
        },
{
    let is = &f.inputs;
    let mut i: usize = 0;
    while i < is.len()
        invariant
            is == &f.inputs,
            i <= is.len(),
            forall|j: int| 0 <= j < i ==> #[trigger] input_names(is@)[j] != key@,
        decreases is.len() - i,
    {
        if same_text(is[i].name.as_str(), key) {
            proof {
                lemma_first_at(input_names(is@), key@, i as int);
            }
            return match &is[i].number {
                Some(t) => parse_milli(t.as_str()),
                None => None,
            };
        }
        i = i + 1;
    }
    proof {
        lemma_first_at(input_names(is@), key@, i as int);
    }
    None
}

impl SensorData {
    /// The reading at the path `chip`, `feature`, `input`, if it is there and
    /// is a number.
    pub fn path_reading(&self, chip: &str, feature: &str, input: &str) -> (r: Option<i64>)
        ensures
            match path_value(*self, chip@, feature@, input@) {
                Some(v) => r == Some(v as i64),
                None => r is None,
            },
    {
        proof {
            lemma_first_named(chip_names(self.chips@), chip@);
            assert(chip_names(self.chips@).len() == self.chips@.len());
        }
        match find_chip(&self.chips, chip) {
            Some(c) => match find_feature(&self.chips[c].features, feature) {
                Some(f) => {
                    proof {
                        lemma_first_named(feature_names(self.chips@[c as int].features@), feature@);
                        assert(chip_features(*self, chip@) == self.chips@[c as int].features@);
                    }
                    read_input(&self.chips[c].features[f], input)
                },
                None => {
                    assert(chip_features(*self, chip@) == self.chips@[c as int].features@);
                    None
                },
            },
            None => {
                assert(feature_names(Seq::<Feature>::empty()) =~= Seq::<Seq<char>>::empty());
                None
            },
        }
    }
}

/// The core index and reading that feature `f` gives, if any.
pub fn core_reading_of(f: &Feature) -> (r: Option<(i64, i64)>)
    ensures
        r == core_reading(*f),
{
    let name = f.name.as_str();
    let n = name.unicode_len();
    if n < 4 {
        return None;
    }
    let is_core = name.get_char(0) == 'C' && name.get_char(1) == 'o' && name.get_char(2) == 'r'
        && name.get_char(3) == 'e';
    if !is_core {
        proof {
            if is_core_name(f.name@) {
                assert(f.name@.take(4)[1] == 'o');
            }
        }
        return None;
    }
    assert(f.name@.take(4) =~= seq!['C', 'o', 'r', 'e']);
    match second_word_of(name) {
        Some(w) => match parse_int(w) {
            Some(i) => {
                let mut key = String::new();
                proof {
                    reveal_strlit("temp");
                    reveal_strlit("_input");
                }
                key.append("temp");
                push_int(&mut key, i as i64 + 2);
                key.append("_input");
                assert(key@ =~= core_input(i as int));
                match read_input(f, key.as_str()) {
                    Some(v) => Some((i as i64, v)),
                    None => None,
                }
            },
            None => None,
        },
        None => None,
    }
}

/// Core readings of the features `fs`, in their order.
pub fn collect_cores(fs: &Vec<Feature>) -> (r: Vec<(i64, i64)>)
    ensures
        r@ == core_readings(fs@),
{
    let mut out: Vec<(i64, i64)> = Vec::new();
    let mut i: usize = 0;
    while i < fs.len()
        invariant
            i <= fs.len(),
            out@ == core_readings(fs@.take(i as int)),
        decreases fs.len() - i,
    {
        let ghost t = fs@.take(i as int + 1);
        assert(t.drop_last() =~= fs@.take(i as int));
        match core_reading_of(&fs[i]) {
            Some(c) => out.push(c),
            None => {},
        }
        i = i + 1;
    }
    assert(fs@.take(i as int) =~= fs@);
    out
}

/// Each core of `rs` once, by ascending index, with its last reading.
pub fn order_cores(rs: &Vec<(i64, i64)>) -> (r: Vec<(i64, i64)>)
    ensures
        cores_in_order(r@, rs@),
{
    let mut cs: Vec<(i64, i64)> = Vec::new();
    let mut i: usize = 0;
    while i < rs.len()
        invariant
            i <= rs.len(),
            cores_in_order(cs@, rs@.take(i as int)),
        decreases rs.len() - i,
    {
        let (k, v) = rs[i];
        place(&mut cs, k, v);
        proof {
            let t = rs@.take(i as int + 1);
            assert(t.drop_last() =~= rs@.take(i as int));
            assert forall|x: i64| #[trigger] last_for(cs@, x) == last_for(t, x) by {}
        }
        i = i + 1;
    }
    assert(rs@.take(i as int) =~= rs@);
    cs
}

proof fn lemma_append_new(e: Seq<(Seq<char>, i64)>, key: Seq<char>, v: i64)
    requires
        forall|j: int| 0 <= j < e.len() ==> #[trigger] e[j].0 != key,
    ensures
        insert_entry(e, key, v) == e.push((key, v)),
{
    lemma_find_label(e, key);
}

fn insert_opt(out: &mut Sample, label: &str, v: Option<i64>)
    requires
        old(out).wf(),
        forall|j: int| 0 <= j < old(out)@.len() ==> #[trigger] old(out)@[j].0 != label@,
    ensures
        final(out).wf(),
        final(out)@ == old(out)@ + opt_entry(label@, match v {
            Some(x) => Some(x as int),
            None => None,
        }),
{
    match v {
        Some(x) => {
            proof {
                lemma_append_new(out@, label@, x);
            }
            out.insert(label.to_owned(), x);
            assert(final(out)@ =~= old(out)@ + opt_entry(label@, Some(x as int)));
        },
        None => {
            assert(out@ =~= out@ + Seq::<(Seq<char>, i64)>::empty());
        },
    }
}

/// The labelled readings of a report: the CPU package, the ACPI zone, then
/// the cores by ascending index; a reading that is missing or not a number is
/// left out.
pub fn handle_temps(d: &SensorData) -> (r: Sample)
    ensures
        r.wf(),
        extracted(*d, r@),
{
    let mut out = Sample::new();
    proof {
        reveal_strlit("coretemp-isa-0000");
        reveal_strlit("Package id 0");
        reveal_strlit("temp1_input");
        reveal_strlit("acpitz-acpi-0");
        reveal_strlit("temp1");
        reveal_strlit("CPU");
        reveal_strlit("ACPI");
        reveal_strlit("Core#");
    }
    let cpu = d.path_reading("coretemp-isa-0000", "Package id 0", "temp1_input");
    insert_opt(&mut out, "CPU", cpu);
    let acpi = d.path_reading("acpitz-acpi-0", "temp1", "temp1_input");
    proof {
        assert("coretemp-isa-0000"@ =~= core_chip());
        assert("Package id 0"@ =~= package_feature());
        assert("temp1_input"@ =~= first_input());
        assert("acpitz-acpi-0"@ =~= acpi_chip());
        assert("temp1"@ =~= acpi_feature());
        assert("CPU"@ =~= cpu_label());
        assert("ACPI"@ =~= acpi_label());
        assert forall|j: int| 0 <= j < out@.len() implies #[trigger] out@[j].0 != "ACPI"@ by {
            assert(out@[j].0[0] == 'C');
        }
    }
    insert_opt(&mut out, "ACPI", acpi);
    let ghost head = out@;
    proof {
        lemma_first_named(chip_names(d.chips@), core_chip());
        assert(chip_names(d.chips@).len() == d.chips@.len());
    }
    let rs = match find_chip(&d.chips, "coretemp-isa-0000") {
        Some(c) => collect_cores(&d.chips[c].features),
        None => Vec::new(),
    };
    proof {
        if first_named(chip_names(d.chips@), core_chip()) is None {
            assert(core_readings(Seq::<Feature>::empty()) =~= Seq::<(i64, i64)>::empty());
        }
    }
    let cs = order_cores(&rs);
    let mut j: usize = 0;
    while j < cs.len()
        invariant
            j <= cs.len(),
            out.wf(),
            strictly_ascending(cs@),
            head.len() <= 2,
            forall|a: int| 0 <= a < head.len() ==> #[trigger] head[a].0 == cpu_label() || head[a].0 == acpi_label(),
            out@ == head + labelled_cores(cs@.take(j as int)),
        decreases cs.len() - j,
    {
        let (k, v) = cs[j];
        let mut label = String::new();
        proof {
            reveal_strlit("Core#");
        }
        label.append("Core#");
        push_int(&mut label, k);
        assert(label@ =~= core_label(k as int));
        proof {
            assert forall|a: int| 0 <= a < out@.len() implies #[trigger] out@[a].0 != label@ by {
                if a < head.len() {
                    if head[a].0 == cpu_label() {
                        assert(label@[1] != out@[a].0[1]);
                    } else {
                        assert(label@[0] != out@[a].0[0]);
                    }
                } else {
                    let b = a - head.len();
                    assert(out@[a] == labelled_cores(cs@.take(j as int))[b]);
                    assert(cs@[b].0 < k);
                    if out@[a].0 == label@ {
                        assert(core_label(cs@[b].0 as int).skip(5) =~= int_text(cs@[b].0 as int));
                        assert(core_label(k as int).skip(5) =~= int_text(k as int));
                        lemma_int_text_injective(cs@[b].0 as int, k as int);
                    }
                }
            }
            lemma_append_new(out@, label@, v);
        }
        out.insert(label, v);
        assert(labelled_cores(cs@.take(j as int + 1)) =~= labelled_cores(cs@.take(j as int)).push(
            (core_label(k as int), v),
        ));
        j = j + 1;
    }
    assert(cs@.take(j as int) =~= cs@);
    assert(out@ =~= readings_with(*d, cs@));
    out
}

/// `e` is the sample of a poll that gave report `d` and GPU text `g`: the
/// readings of `d`, then the GPU reading last.
pub open spec fn sampled(d: SensorData, g: Seq<char>, e: Seq<(Seq<char>, i64)>) -> bool {
    exists|cs: Seq<(i64, i64)>|
        cores_in_order(cs, core_readings(chip_features(d, core_chip()))) && e == readings_with(d, cs).push(
            (gpu_label(), gpu_value(g)),
        )
}

/// The GPU reading in the text that the GPU query printed: its trimmed text
/// as a number, or zero where that is no number.
pub open spec fn gpu_value(t: Seq<char>) -> i64 {
    match decimal_milli(trimmed(t)) {
        Some(v) => v as i64,
        None => 0,
    }
}

/// The GPU reading in the text that the GPU query printed, zero where it is
/// no number.
pub fn gpu_reading(text: &str) -> (r: i64)
    ensures
        r == gpu_value(text@),
{
    match parse_milli(trim_text(text)) {
        Some(v) => v,
        None => 0,
    }
}

/// The full sample of one poll: the readings of report `d`, then the GPU
/// reading from `gpu_text` last.
pub fn build_sample(d: &SensorData, gpu_text: &str) -> (r: Sample)
    ensures
        r.wf(),
        sampled(*d, gpu_text@, r@),
{
    let mut out = handle_temps(d);
    let g = gpu_reading(gpu_text);
    let ghost cs = choose|cs: Seq<(i64, i64)>|
        cores_in_order(cs, core_readings(chip_features(*d, core_chip()))) && out@ == readings_with(
            *d,
            cs,
        );
    proof {
        reveal_strlit("GPU");
        assert("GPU"@ =~= gpu_label());
        assert forall|j: int| 0 <= j < out@.len() implies #[trigger] out@[j].0 != gpu_label() by {
            let e = out@;
            let k = opt_entry(cpu_label(), path_value(*d, core_chip(), package_feature(), first_input())).len()
                + opt_entry(acpi_label(), path_value(*d, acpi_chip(), acpi_feature(), first_input())).len();
            if j >= k {
                assert(e[j] == labelled_cores(cs)[j - k]);
            }
            assert(e[j].0[0] != 'G');
        }
        lemma_append_new(out@, gpu_label(), g);
    }
    out.insert("GPU".to_owned(), g);
    out
}

/// A report whose CPU package input holds the number `x` gives the reading
/// `x` under the CPU label, first.
pub proof fn lemma_cpu_reading(d: SensorData, e: Seq<(Seq<char>, i64)>, x: int)
    requires
        extracted(d, e),
        path_value(d, core_chip(), package_feature(), first_input()) == Some(x),
    ensures
        e.len() > 0,
        e[0] == (cpu_label(), x as i64),
        e.contains((cpu_label(), x as i64)),
{
    let cs = choose|cs: Seq<(i64, i64)>|
        cores_in_order(cs, core_readings(chip_features(d, core_chip()))) && e == readings_with(d, cs);
    assert(e[0] == (cpu_label(), x as i64));
}

/// A report without the ACPI zone's path gives no ACPI reading, and no error.
pub proof fn lemma_no_acpi(d: SensorData, e: Seq<(Seq<char>, i64)>)
    requires
        extracted(d, e),
        path_value(d, acpi_chip(), acpi_feature(), first_input()) is None,
    ensures
        forall|j: int| 0 <= j < e.len() ==> #[trigger] e[j].0 != acpi_label(),
{
    let cs = choose|cs: Seq<(i64, i64)>|
        cores_in_order(cs, core_readings(chip_features(d, core_chip()))) && e == readings_with(d, cs);
    let k = opt_entry(cpu_label(), path_value(d, core_chip(), package_feature(), first_input())).len();
    assert forall|j: int| 0 <= j < e.len() implies #[trigger] e[j].0 != acpi_label() by {
        if j >= k {
            assert(e[j] == labelled_cores(cs)[j - k]);
        }
        assert(e[j].0[0] != acpi_label()[0]);
    }
}

/// Where the CPU package and the ACPI zone are both read, a poll's sample
/// lists the CPU, then the ACPI zone, then the cores by ascending index, then
/// the GPU.
pub proof fn lemma_sample_order(d: SensorData, g: Seq<char>, e: Seq<(Seq<char>, i64)>)
    requires
        sampled(d, g, e),
        path_value(d, core_chip(), package_feature(), first_input()) is Some,
        path_value(d, acpi_chip(), acpi_feature(), first_input()) is Some,
    ensures
        e[0].0 == cpu_label(),
        e[1].0 == acpi_label(),
        e.last().0 == gpu_label(),
        exists|cs: Seq<(i64, i64)>|
            strictly_ascending(cs) && e.len() == cs.len() + 3 && forall|a: int|
                0 <= a < cs.len() ==> #[trigger] e[a + 2].0 == core_label(cs[a].0 as int),
{
    let cs = choose|cs: Seq<(i64, i64)>|
        cores_in_order(cs, core_readings(chip_features(d, core_chip()))) && e == readings_with(d, cs).push(
            (gpu_label(), gpu_value(g)),
        );
    assert forall|a: int| 0 <= a < cs.len() implies #[trigger] e[a + 2].0 == core_label(cs[a].0 as int) by {
        assert(e[a + 2] == labelled_cores(cs)[a]);
    }
}

} // verus!
