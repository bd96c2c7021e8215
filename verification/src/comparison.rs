//! A named group of benchmarks, and the orders in which it is read.

use crate::benchmark::{views, Benchmark, BenchmarkView};
use crate::decimal::Ratio;
use crate::order::{
    chars_le, comes_first, lemma_extremes_of_same_benchmarks, lemma_inserted_at,
    lemma_perf_order_extremes, max_picos, min_picos, name_order, perf_order, picked, sorted_by,
    SortKey,
};
use crate::text::{chars_of, same_text};
use vstd::prelude::*;

verus! {

/// The names of a run of benchmarks.
pub open spec fn names_of(s: Seq<BenchmarkView>) -> Seq<Seq<char>> {
    Seq::new(s.len(), |i: int| s[i].name)
}

/// The benchmark that `name` stands for: the last one given under that name.
pub open spec fn found(s: Seq<BenchmarkView>, name: Seq<char>) -> Option<BenchmarkView>
    decreases s.len(),
{
    if s.len() == 0 {
        None
    } else if s.last().name == name {
        Some(s.last())
    } else {
        found(s.drop_last(), name)
    }
}

/// How far the slowest benchmark lies above the fastest, in percent of the
/// fastest; zero where there are fewer than two benchmarks.
pub open spec fn spread(s: Seq<BenchmarkView>) -> Ratio {
    if s.len() < 2 {
        Ratio { num: 0, den: 1 }
    } else {
        let best = perf_order(s).first().picos;
        let worst = perf_order(s).last().picos;
        Ratio { num: ((worst - best) * 100) as u128, den: best }
    }
}

/// The number of characters before the first `/` of `full`; its length where
/// it has none.
pub open spec fn group_len(full: Seq<char>) -> nat
    decreases full.len(),
{
    if full.len() == 0 || full[0] == '/' {
        0
    } else {
        1 + group_len(full.drop_first())
    }
}

/// The group that an identifier names: what stands before its first `/`.
pub open spec fn group_part(full: Seq<char>) -> Option<Seq<char>> {
    if group_len(full) == full.len() {
        None
    } else {
        Some(full.take(group_len(full) as int))
    }
}

/// The name that an identifier gives within its group: what stands behind
/// its first `/`, or all of it where it has none.
pub open spec fn name_part(full: Seq<char>) -> Seq<char> {
    if group_len(full) == full.len() {
        full
    } else {
        full.skip(group_len(full) as int + 1)
    }
}

/// Whether the benchmark at `i` may stand before the one at `j`.
fn in_order(
    benchmarks: &Vec<Benchmark>,
    names: &Vec<Vec<char>>,
    key: SortKey,
    i: usize,
    j: usize,
) -> (r: bool)
    requires
        i < benchmarks.len(),
        j < benchmarks.len(),
        names.len() == benchmarks.len(),
        names[i as int]@ == benchmarks[i as int].name@,
        names[j as int]@ == benchmarks[j as int].name@,
    ensures
        r == comes_first(key, benchmarks[i as int]@, benchmarks[j as int]@),
{
    match key {
        SortKey::Duration => benchmarks[i].picos <= benchmarks[j].picos,
        SortKey::Name => chars_le(&names[i], &names[j]),
    }
}

/// The indices of the benchmarks in the order of `key`.
fn order_by(benchmarks: &Vec<Benchmark>, names: &Vec<Vec<char>>, key: SortKey) -> (idx: Vec<usize>)
    requires
        names.len() == benchmarks.len(),
        forall|i: int| 0 <= i < names.len() ==> (#[trigger] names[i])@ == benchmarks[i].name@,
    ensures
        idx.len() == benchmarks.len(),
        forall|k: int| 0 <= k < idx.len() ==> #[trigger] idx[k] < benchmarks.len(),
        picked(views(benchmarks@), idx@) == sorted_by(key, views(benchmarks@)),
{
    let ghost v = views(benchmarks@);
    let n: usize = benchmarks.len();
    let mut idx: Vec<usize> = Vec::new();
    let mut m: usize = 0;
    assert(picked(v, idx@) =~= sorted_by(key, v.take(0)));
    while m < n
        invariant
            v == views(benchmarks@),
            n == benchmarks.len(),
            names.len() == n,
            forall|i: int| 0 <= i < n ==> (#[trigger] names[i])@ == benchmarks[i].name@,
            m <= n,
            idx.len() == m,
            forall|k: int| 0 <= k < idx.len() ==> #[trigger] idx[k] < m,
            picked(v, idx@) == sorted_by(key, v.take(m as int)),
        decreases n - m,
    {
        let mut pos: usize = idx.len();
        while pos > 0 && !in_order(benchmarks, names, key, idx[pos - 1], m)
            invariant
                v == views(benchmarks@),
                n == benchmarks.len(),
                names.len() == n,
                forall|i: int| 0 <= i < n ==> (#[trigger] names[i])@ == benchmarks[i].name@,
                m < n,
                pos <= idx.len(),
                forall|k: int| 0 <= k < idx.len() ==> #[trigger] idx[k] < m,
                forall|k: int|
                    pos <= k < idx.len() ==> !comes_first(
                        key,
                        #[trigger] picked(v, idx@)[k],
                        v[m as int],
                    ),
            decreases pos,
        {
            pos -= 1;
        }
        let ghost before = picked(v, idx@);
        proof {
            lemma_inserted_at(key, before, v[m as int], pos as int);
            assert(v.take(m + 1).drop_last() =~= v.take(m as int));
        }
        idx.insert(pos, m);
        assert(picked(v, idx@) =~= before.take(pos as int).push(v[m as int]) + before.skip(
            pos as int,
        ));
        m += 1;
    }
    assert(v.take(n as int) =~= v);
    idx
}

/// Splits an identifier at its first `/` into the group and the name.
fn split_name(full: &str) -> (parts: (Option<String>, String))
    ensures
        parts.0 is Some == group_part(full@) is Some,
        parts.0 is Some ==> parts.0->0@ == group_part(full@)->0,
        parts.1@ == name_part(full@),
{
    let chars: Vec<char> = chars_of(full);
    let n: usize = chars.len();
    let mut k: usize = 0;
    assert(chars@.skip(0) =~= chars@);
    while k < n && chars[k] != '/'
        invariant
            chars@ == full@,
            n == chars.len(),
            k <= n,
            group_len(full@) == k + group_len(full@.skip(k as int)),
        decreases n - k,
    {
        assert(full@.skip(k as int).drop_first() =~= full@.skip(k + 1));
        k += 1;
    }
    if k == n {
        (None, String::from_str(full))
    } else {
        let group: &str = full.substring_char(0, k);
        let name: &str = full.substring_char(k + 1, n);
        proof {
            assert(full@.subrange(0, k as int) =~= full@.take(k as int));
            assert(full@.subrange(k + 1, n as int) =~= full@.skip(k + 1));
        }
        (Some(String::from_str(group)), String::from_str(name))
    }
}

/// A named group of benchmarks that are held against each other.
#[derive(Debug)]
pub struct Comparison {
    name: String,
    group: Option<String>,
    /// The benchmarks in the order in which they were given.
    benchmarks: Vec<Benchmark>,
    /// Where each benchmark stands in `benchmarks`, from the fastest to the
    /// slowest.
    perf_ordered: Vec<usize>,
    /// Where each benchmark stands in `benchmarks`, by name.
    name_ordered: Vec<usize>,
}

/// A comparison as the contracts see it. The orders in which it is read
/// follow from the benchmarks.
pub struct ComparisonView {
    pub name: Seq<char>,
    pub group: Option<Seq<char>>,
    /// The benchmarks in the order in which they were given.
    pub benchmarks: Seq<BenchmarkView>,
}

/// Whether `idx` lists the places of the benchmarks in the order of `key`.
pub open spec fn lists_order(key: SortKey, s: Seq<Benchmark>, idx: Seq<usize>) -> bool {
    &&& idx.len() == s.len()
    &&& forall|k: int| 0 <= k < idx.len() ==> #[trigger] idx[k] < s.len()
    &&& picked(views(s), idx) == sorted_by(key, views(s))
}

impl View for Comparison {
    type V = ComparisonView;

    closed spec fn view(&self) -> ComparisonView {
        ComparisonView {
            name: self.name@,
            group: match self.group {
                Some(g) => Some(g@),
                None => None,
            },
            benchmarks: views(self.benchmarks@),
        }
    }
}

impl Comparison {
    #[verifier::type_invariant]
    spec fn well_formed(&self) -> bool {
        &&& lists_order(SortKey::Duration, self.benchmarks@, self.perf_ordered@)
        &&& lists_order(SortKey::Name, self.benchmarks@, self.name_ordered@)
    }

    /// A comparison of `benchmarks` under the identifier `name`, which is
    /// either a plain name or a group and a name with `/` between them.
    pub fn new(name: &str, benchmarks: Vec<Benchmark>) -> (c: Comparison)
        ensures
            c@.name == name_part(name@),
            c@.group == group_part(name@),
            c@.benchmarks == views(benchmarks@),
    {
        let parts: (Option<String>, String) = split_name(name);
        let mut names: Vec<Vec<char>> = Vec::new();
        let mut i: usize = 0;
        while i < benchmarks.len()
            invariant
                i <= benchmarks.len(),
                names.len() == i,
                forall|k: int| 0 <= k < i ==> (#[trigger] names[k])@ == benchmarks[k].name@,
            decreases benchmarks.len() - i,
        {
            names.push(chars_of(benchmarks[i].name.as_str()));
            i += 1;
        }
        let perf_ordered: Vec<usize> = order_by(&benchmarks, &names, SortKey::Duration);
        let name_ordered: Vec<usize> = order_by(&benchmarks, &names, SortKey::Name);
        Comparison { name: parts.1, group: parts.0, benchmarks, perf_ordered, name_ordered }
    }

    /// The name of the comparison, without its group.
    pub fn name(&self) -> (s: &str)
        ensures
            s@ == self@.name,
    {
        self.name.as_str()
    }

    /// The group of the comparison, where its identifier named one.
    pub fn group(&self) -> (g: Option<&str>)
        ensures
            g is Some == self@.group is Some,
            g is Some ==> g->0@ == self@.group->0,
    {
        match &self.group {
            Some(g) => Some(g.as_str()),
            None => None,
        }
    }

    /// The number of benchmarks.
    pub fn len(&self) -> (n: usize)
        ensures
            n == self@.benchmarks.len(),
    {
        self.benchmarks.len()
    }

    /// Whether the comparison holds no benchmark.
    pub fn is_empty(&self) -> (b: bool)
        ensures
            b == (self@.benchmarks.len() == 0),
    {
        self.benchmarks.len() == 0
    }

    /// The benchmark at place `pos` from the fastest.
    pub fn get_by_perf(&self, pos: usize) -> (r: Option<&Benchmark>)
        ensures
            r is Some == (pos < self@.benchmarks.len()),
            r is Some ==> r->0@ == perf_order(self@.benchmarks)[pos as int],
    {
        proof {
            use_type_invariant(self);
        }
        if pos < self.perf_ordered.len() {
            let at: usize = self.perf_ordered[pos];
            assert(picked(views(self.benchmarks@), self.perf_ordered@)[pos as int]
                == self.benchmarks[at as int]@);
            Some(&self.benchmarks[at])
        } else {
            None
        }
    }

    /// The benchmark at place `pos` in the order in which they were given.
    pub fn get_by_cmdline(&self, pos: usize) -> (r: Option<&Benchmark>)
        ensures
            r is Some == (pos < self@.benchmarks.len()),
            r is Some ==> r->0@ == self@.benchmarks[pos as int],
    {
        if pos < self.benchmarks.len() {
            Some(&self.benchmarks[pos])
        } else {
            None
        }
    }

    /// The benchmark at place `pos` in the order of names.
    pub fn get_by_name_order(&self, pos: usize) -> (r: Option<&Benchmark>)
        ensures
            r is Some == (pos < self@.benchmarks.len()),
            r is Some ==> r->0@ == name_order(self@.benchmarks)[pos as int],
    {
        proof {
            use_type_invariant(self);
        }
        if pos < self.name_ordered.len() {
            let at: usize = self.name_ordered[pos];
            assert(picked(views(self.benchmarks@), self.name_ordered@)[pos as int]
                == self.benchmarks[at as int]@);
            Some(&self.benchmarks[at])
        } else {
            None
        }
    }

    /// The fastest benchmark, if there is any.
    pub fn best(&self) -> (r: Option<&Benchmark>)
        ensures
            r is Some == (self@.benchmarks.len() > 0),
            r is Some ==> r->0@ == perf_order(self@.benchmarks).first(),
    {
        self.get_by_perf(0)
    }

    /// The slowest benchmark, if there is any.
    pub fn worst(&self) -> (r: Option<&Benchmark>)
        ensures
            r is Some == (self@.benchmarks.len() > 0),
            r is Some ==> r->0@ == perf_order(self@.benchmarks).last(),
    {
        proof {
            use_type_invariant(self);
        }
        if self.perf_ordered.len() == 0 {
            None
        } else {
            self.get_by_perf(self.perf_ordered.len() - 1)
        }
    }

    /// The benchmark that was given first, if there is any.
    pub fn first(&self) -> (r: Option<&Benchmark>)
        ensures
            r is Some == (self@.benchmarks.len() > 0),
            r is Some ==> r->0@ == self@.benchmarks.first(),
    {
        self.get_by_cmdline(0)
    }

    /// The benchmark of the given name, if there is one. Where several were
    /// given under one name, it is the last of them.
    pub fn get(&self, name: &str) -> (r: Option<&Benchmark>)
        ensures
            r is Some == found(self@.benchmarks, name@) is Some,
            r is Some ==> r->0@ == found(self@.benchmarks, name@)->0,
    {
        let ghost v = views(self.benchmarks@);
        let mut i: usize = self.benchmarks.len();
        assert(v.take(i as int) =~= v);
        while i > 0
            invariant
                v == views(self.benchmarks@),
                i <= self.benchmarks.len(),
                found(v, name@) == found(v.take(i as int), name@),
            decreases i,
        {
            if same_text(self.benchmarks[i - 1].name.as_str(), name) {
                return Some(&self.benchmarks[i - 1]);
            }
            assert(v.take(i as int).drop_last() =~= v.take(i - 1));
            i -= 1;
        }
        None
    }

    /// The names of the benchmarks, from the fastest to the slowest.
    pub fn perf_ordered(&self) -> (names: Vec<String>)
        ensures
            texts(names@) == names_of(perf_order(self@.benchmarks)),
    {
        proof {
            use_type_invariant(self);
        }
        let mut names: Vec<String> = Vec::new();
        let mut k: usize = 0;
        while k < self.perf_ordered.len()
            invariant
                lists_order(SortKey::Duration, self.benchmarks@, self.perf_ordered@),
                k <= self.perf_ordered.len(),
                names.len() == k,
                forall|i: int|
                    0 <= i < k ==> (#[trigger] names[i])@ == perf_order(
                        views(self.benchmarks@),
                    )[i].name,
            decreases self.perf_ordered.len() - k,
        {
            let at: usize = self.perf_ordered[k];
            assert(picked(views(self.benchmarks@), self.perf_ordered@)[k as int]
                == self.benchmarks[at as int]@);
            names.push(self.benchmarks[at].name.clone());
            k += 1;
        }
        assert(texts(names@) =~= names_of(perf_order(self@.benchmarks)));
        names
    }

    /// The names of the benchmarks in the order in which they were given.
    pub fn cmdline_ordered(&self) -> (names: Vec<String>)
        ensures
            texts(names@) == names_of(self@.benchmarks),
    {
        let mut names: Vec<String> = Vec::new();
        let mut k: usize = 0;
        while k < self.benchmarks.len()
            invariant
                k <= self.benchmarks.len(),
                names.len() == k,
                forall|i: int| 0 <= i < k ==> (#[trigger] names[i])@ == self.benchmarks[i].name@,
            decreases self.benchmarks.len() - k,
        {
            names.push(self.benchmarks[k].name.clone());
            k += 1;
        }
        assert(texts(names@) =~= names_of(self@.benchmarks));
        names
    }

    /// The biggest difference between two benchmarks of this comparison: how
    /// far the slowest lies above the fastest, in percent of the fastest.
    /// With fewer than two benchmarks it is zero.
    pub fn biggest_difference(&self) -> (r: Ratio)
        ensures
            r == spread(self@.benchmarks),
            self@.benchmarks.len() < 2 ==> r == (Ratio { num: 0, den: 1 }),
            self@.benchmarks.len() >= 2 ==> r.den == min_picos(self@.benchmarks) && r.num == (
            max_picos(self@.benchmarks) - min_picos(self@.benchmarks)) * 100,
    {
        if self.benchmarks.len() < 2 {
            return Ratio { num: 0, den: 1 };
        }
        proof {
            lemma_perf_order_extremes(self@.benchmarks);
            lemma_spread(self@.benchmarks);
        }
        let best: u64 = self.best().unwrap().picos;
        let worst: u64 = self.worst().unwrap().picos;
        Ratio { num: ((worst - best) as u128) * 100, den: best }
    }
}

impl Clone for Comparison {
    fn clone(&self) -> (c: Comparison)
        ensures
            c@ == self@,
    {
        proof {
            use_type_invariant(self);
        }
        let mut benchmarks: Vec<Benchmark> = Vec::new();
        let mut i: usize = 0;
        while i < self.benchmarks.len()
            invariant
                i <= self.benchmarks.len(),
                benchmarks.len() == i,
                forall|k: int| 0 <= k < i ==> (#[trigger] benchmarks[k])@ == self.benchmarks[k]@,
            decreases self.benchmarks.len() - i,
        {
            benchmarks.push(self.benchmarks[i].clone());
            i += 1;
        }
        assert(views(benchmarks@) =~= views(self.benchmarks@));
        let perf_ordered: Vec<usize> = self.perf_ordered.clone();
        let name_ordered: Vec<usize> = self.name_ordered.clone();
        assert(perf_ordered@ =~= self.perf_ordered@);
        assert(name_ordered@ =~= self.name_ordered@);
        assert(picked(views(benchmarks@), perf_ordered@) =~= picked(
            views(self.benchmarks@),
            self.perf_ordered@,
        ));
        assert(picked(views(benchmarks@), name_ordered@) =~= picked(
            views(self.benchmarks@),
            self.name_ordered@,
        ));
        let group: Option<String> = match &self.group {
            Some(g) => Some(g.clone()),
            None => None,
        };
        Comparison { name: self.name.clone(), group, benchmarks, perf_ordered, name_ordered }
    }
}

/// The texts of a run of strings.
pub open spec fn texts(s: Seq<String>) -> Seq<Seq<char>> {
    Seq::new(s.len(), |i: int| s[i]@)
}

/// The biggest difference of two or more benchmarks is the longest duration
/// less the shortest, over the shortest, times a hundred.
pub proof fn lemma_spread(s: Seq<BenchmarkView>)
    ensures
        s.len() < 2 ==> spread(s) == (Ratio { num: 0, den: 1 }),
        s.len() >= 2 ==> spread(s).den == min_picos(s) && spread(s).num == (max_picos(s)
            - min_picos(s)) * 100,
{
    if s.len() >= 2 {
        lemma_perf_order_extremes(s);
        crate::order::lemma_extremes(s);
        assert(0 <= (max_picos(s) - min_picos(s)) * 100 <= 0xffff_ffff_ffff_ffff * 100);
    }
}

/// The biggest difference does not depend on the order in which the
/// benchmarks are given.
pub proof fn lemma_spread_of_reordered(s: Seq<BenchmarkView>, t: Seq<BenchmarkView>)
    requires
        s.to_multiset() == t.to_multiset(),
    ensures
        spread(s) == spread(t),
{
    broadcast use vstd::seq_lib::group_to_multiset_ensures;

    assert(s.len() == t.len()) by {
        assert(s.to_multiset().len() == s.len());
        assert(t.to_multiset().len() == t.len());
    }
    if s.len() >= 2 {
        lemma_extremes_of_same_benchmarks(s, t);
        lemma_spread(s);
        lemma_spread(t);
    }
}

/// The group of an identifier ends before its first `/`: no character of
/// the group is a `/`, and where the identifier goes on, a `/` follows.
pub proof fn lemma_group_len(full: Seq<char>)
    ensures
        group_len(full) <= full.len(),
        forall|i: int| 0 <= i < group_len(full) ==> full[i] != '/',
        group_len(full) < full.len() ==> full[group_len(full) as int] == '/',
    decreases full.len(),
{
    if full.len() > 0 && full[0] != '/' {
        let rest = full.drop_first();
        lemma_group_len(rest);
        assert forall|i: int| 0 <= i < group_len(full) implies full[i] != '/' by {
            if i > 0 {
                assert(full[i] == rest[i - 1]);
            }
        }
        if group_len(full) < full.len() {
            assert(full[group_len(full) as int] == rest[group_len(rest) as int]);
        }
    }
}

/// An identifier without `/` is a name and has no group. Any other is its
/// group, a `/` and its name, and the group holds no `/`.
pub proof fn lemma_name_parts(full: Seq<char>)
    ensures
        match group_part(full) {
            None => !full.contains('/') && name_part(full) == full,
            Some(group) => !group.contains('/') && full == group + seq!['/'] + name_part(full),
        },
{
    lemma_group_len(full);
    match group_part(full) {
        None => {},
        Some(group) => {
            assert(full =~= group + seq!['/'] + name_part(full));
        },
    }
}

/// A name finds a benchmark if and only if some benchmark has that name, and
/// the benchmark found has it. Where no two benchmarks share a name, each
/// benchmark is the one that its name finds.
pub proof fn lemma_found(s: Seq<BenchmarkView>, name: Seq<char>)
    ensures
        found(s, name) is Some <==> names_of(s).contains(name),
        found(s, name) is Some ==> found(s, name)->0.name == name && s.contains(
            found(s, name)->0,
        ),
        names_of(s).no_duplicates() ==> forall|i: int|
            0 <= i < s.len() && (#[trigger] s[i]).name == name ==> found(s, name) == Some(s[i]),
    decreases s.len(),
{
    if s.len() > 0 {
        let rest = s.drop_last();
        let last = s.len() - 1;
        lemma_found(rest, name);
        assert(names_of(s)[last] == s.last().name);
        if names_of(rest).contains(name) {
            let k = choose|k: int| 0 <= k < rest.len() && names_of(rest)[k] == name;
            assert(names_of(s)[k] == name);
        }
        if names_of(s).contains(name) && s.last().name != name {
            let k = choose|k: int| 0 <= k < s.len() && names_of(s)[k] == name;
            assert(names_of(rest)[k] == name);
        }
        if s.last().name == name {
            assert(s[last] == s.last());
        } else if found(rest, name) is Some {
            let b = found(rest, name)->0;
            let k = choose|k: int| 0 <= k < rest.len() && rest[k] == b;
            assert(s[k] == b);
        }
        if names_of(s).no_duplicates() {
            assert forall|i: int, j: int|
                0 <= i < rest.len() && 0 <= j < rest.len() && i != j implies names_of(rest)[i]
                != names_of(rest)[j] by {
                assert(names_of(s)[i] == names_of(rest)[i] && names_of(s)[j] == names_of(
                    rest,
                )[j]);
            }
            assert forall|i: int| 0 <= i < s.len() && (#[trigger] s[i]).name == name implies found(
                s,
                name,
            ) == Some(s[i]) by {
                if i < last {
                    assert(names_of(s)[i] == name);
                    assert(rest[i] == s[i]);
                }
            }
        }
    }
}

} // verus!
