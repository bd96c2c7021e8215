//! The orders in which a group of benchmarks is read.

use crate::benchmark::BenchmarkView;
use vstd::prelude::*;

verus! {

/// What a group of benchmarks is ordered by.
#[derive(Clone, Copy, PartialEq, Eq, Debug, Structural)]
pub enum SortKey {
    /// By duration, the fastest first.
    Duration,
    /// By name, character by character.
    Name,
}

/// Whether text `a` stands at or before text `b` in the order of names: the
/// first character in which they differ decides, and a text stands before
/// each of its extensions.
pub open spec fn text_le(a: Seq<char>, b: Seq<char>) -> bool
    decreases a.len(),
{
    if a.len() == 0 {
        true
    } else if b.len() == 0 {
        false
    } else if a[0] != b[0] {
        (a[0] as u32) < (b[0] as u32)
    } else {
        text_le(a.drop_first(), b.drop_first())
    }
}

/// Whether `x` may stand before `y` in the order of `key`.
pub open spec fn comes_first(key: SortKey, x: BenchmarkView, y: BenchmarkView) -> bool {
    match key {
        SortKey::Duration => x.picos <= y.picos,
        SortKey::Name => text_le(x.name, y.name),
    }
}

/// An ordered run with `b` put in: behind every benchmark that may stand
/// before it, so behind its equals.
pub open spec fn inserted(key: SortKey, sorted: Seq<BenchmarkView>, b: BenchmarkView) -> Seq<
    BenchmarkView,
>
    decreases sorted.len(),
{
    if sorted.len() == 0 {
        seq![b]
    } else if comes_first(key, sorted.last(), b) {
        sorted.push(b)
    } else {
        inserted(key, sorted.drop_last(), b).push(sorted.last())
    }
}

/// The benchmarks of `s` in the order of `key`. Benchmarks that the key does
/// not tell apart keep the order in which they were given.
pub open spec fn sorted_by(key: SortKey, s: Seq<BenchmarkView>) -> Seq<BenchmarkView>
    decreases s.len(),
{
    if s.len() == 0 {
        Seq::empty()
    } else {
        inserted(key, sorted_by(key, s.drop_last()), s.last())
    }
}

/// The benchmarks from the fastest to the slowest.
pub open spec fn perf_order(s: Seq<BenchmarkView>) -> Seq<BenchmarkView> {
    sorted_by(SortKey::Duration, s)
}

/// The benchmarks by name.
pub open spec fn name_order(s: Seq<BenchmarkView>) -> Seq<BenchmarkView> {
    sorted_by(SortKey::Name, s)
}

/// The benchmarks that a run of indices picks, in the order of the indices.
pub open spec fn picked(s: Seq<BenchmarkView>, idx: Seq<usize>) -> Seq<BenchmarkView> {
    Seq::new(idx.len(), |k: int| s[idx[k] as int])
}

/// Where `b` goes when it is put into a run: behind the last benchmark that
/// may stand before it.
pub proof fn lemma_inserted_at(
    key: SortKey,
    sorted: Seq<BenchmarkView>,
    b: BenchmarkView,
    pos: int,
)
    requires
        0 <= pos <= sorted.len(),
        pos > 0 ==> comes_first(key, sorted[pos - 1], b),
        forall|k: int| pos <= k < sorted.len() ==> !comes_first(key, #[trigger] sorted[k], b),
    ensures
        inserted(key, sorted, b) == sorted.take(pos).push(b) + sorted.skip(pos),
    decreases sorted.len(),
{
    if sorted.len() == 0 {
        assert(inserted(key, sorted, b) =~= sorted.take(pos).push(b) + sorted.skip(pos));
    } else if pos == sorted.len() {
        assert(inserted(key, sorted, b) =~= sorted.take(pos).push(b) + sorted.skip(pos));
    } else {
        let rest = sorted.drop_last();
        assert(!comes_first(key, sorted.last(), b));
        lemma_inserted_at(key, rest, b, pos);
        assert(rest.take(pos) =~= sorted.take(pos));
        assert((rest.take(pos).push(b) + rest.skip(pos)).push(sorted.last()) =~= sorted.take(
            pos,
        ).push(b) + sorted.skip(pos));
    }
}

/// Whether text `a` stands at or before text `b` in the order of names.
pub fn chars_le(a: &Vec<char>, b: &Vec<char>) -> (r: bool)
    ensures
        r == text_le(a@, b@),
{
    let mut i: usize = 0;
    assert(a@.skip(0) =~= a@ && b@.skip(0) =~= b@);
    while i < a.len() && i < b.len()
        invariant
            i <= a.len(),
            i <= b.len(),
            text_le(a@, b@) == text_le(a@.skip(i as int), b@.skip(i as int)),
        decreases a.len() - i,
    {
        if a[i] != b[i] {
            return (a[i] as u32) < (b[i] as u32);
        }
        proof {
            assert(a@.skip(i as int).drop_first() =~= a@.skip(i + 1));
            assert(b@.skip(i as int).drop_first() =~= b@.skip(i + 1));
        }
        i += 1;
    }
    i == a.len()
}

/// Two characters are the same, or one has the smaller number.
proof fn lemma_char_order(x: char, y: char)
    ensures
        x == y || (x as u32) < (y as u32) || (y as u32) < (x as u32),
{
    assert((x as u32) as char == x);
    assert((y as u32) as char == y);
}

/// Of two texts, one stands at or before the other.
pub proof fn lemma_text_le_total(a: Seq<char>, b: Seq<char>)
    ensures
        text_le(a, b) || text_le(b, a),
    decreases a.len(),
{
    if a.len() > 0 && b.len() > 0 {
        if a[0] == b[0] {
            lemma_text_le_total(a.drop_first(), b.drop_first());
        } else {
            lemma_char_order(a[0], b[0]);
        }
    }
}

/// The order of names is transitive.
pub proof fn lemma_text_le_trans(a: Seq<char>, b: Seq<char>, c: Seq<char>)
    requires
        text_le(a, b),
        text_le(b, c),
    ensures
        text_le(a, c),
    decreases a.len(),
{
    if a.len() > 0 && b.len() > 0 && c.len() > 0 && a[0] == b[0] && b[0] == c[0] {
        lemma_text_le_trans(a.drop_first(), b.drop_first(), c.drop_first());
    }
}

/// Two texts that each stand at or before the other are the same text.
pub proof fn lemma_text_le_antisymmetric(a: Seq<char>, b: Seq<char>)
    requires
        text_le(a, b),
        text_le(b, a),
    ensures
        a == b,
    decreases a.len(),
{
    if a.len() > 0 && b.len() > 0 {
        lemma_char_order(a[0], b[0]);
        lemma_text_le_antisymmetric(a.drop_first(), b.drop_first());
        assert(a =~= seq![a[0]] + a.drop_first());
        assert(b =~= seq![b[0]] + b.drop_first());
    } else {
        assert(a =~= b);
    }
}

/// Of two benchmarks, one may stand before the other, whatever the key.
pub proof fn lemma_comes_first_total(key: SortKey, x: BenchmarkView, y: BenchmarkView)
    ensures
        comes_first(key, x, y) || comes_first(key, y, x),
{
    lemma_text_le_total(x.name, y.name);
}

/// What may stand before a benchmark may stand before all that it may stand
/// before.
pub proof fn lemma_comes_first_trans(
    key: SortKey,
    x: BenchmarkView,
    y: BenchmarkView,
    z: BenchmarkView,
)
    requires
        comes_first(key, x, y),
        comes_first(key, y, z),
    ensures
        comes_first(key, x, z),
{
    if key == SortKey::Name {
        lemma_text_le_trans(x.name, y.name, z.name);
    }
}

/// Whether each benchmark of `s` may stand before all that follow it.
pub open spec fn ordered(key: SortKey, s: Seq<BenchmarkView>) -> bool {
    forall|i: int, j: int| 0 <= i < j < s.len() ==> comes_first(key, s[i], s[j])
}

/// Putting a benchmark into a run adds it once and keeps the others; an
/// ordered run stays ordered.
pub proof fn lemma_inserted(key: SortKey, sorted: Seq<BenchmarkView>, b: BenchmarkView)
    ensures
        inserted(key, sorted, b).len() == sorted.len() + 1,
        inserted(key, sorted, b).to_multiset() == sorted.to_multiset().insert(b),
        forall|i: int|
            0 <= i < inserted(key, sorted, b).len() ==> {
                let x = #[trigger] inserted(key, sorted, b)[i];
                x == b || sorted.contains(x)
            },
        ordered(key, sorted) ==> ordered(key, inserted(key, sorted, b)),
    decreases sorted.len(),
{
    broadcast use vstd::seq_lib::group_to_multiset_ensures;

    let r = inserted(key, sorted, b);
    if sorted.len() == 0 {
        assert(r =~= Seq::<BenchmarkView>::empty().push(b));
        assert(sorted =~= Seq::<BenchmarkView>::empty());
    } else if comes_first(key, sorted.last(), b) {
        assert forall|i: int| 0 <= i < r.len() implies {
            let x = #[trigger] r[i];
            x == b || sorted.contains(x)
        } by {
            if i < sorted.len() {
                assert(sorted[i] == r[i]);
            }
        }
        if ordered(key, sorted) {
            assert forall|i: int, j: int| 0 <= i < j < r.len() implies comes_first(
                key,
                r[i],
                r[j],
            ) by {
                if j == sorted.len() && i < sorted.len() - 1 {
                    lemma_comes_first_trans(key, sorted[i], sorted.last(), b);
                }
            }
        }
    } else {
        let rest = sorted.drop_last();
        let inner = inserted(key, rest, b);
        lemma_inserted(key, rest, b);
        assert(sorted =~= rest.push(sorted.last()));
        assert(r.to_multiset() =~= sorted.to_multiset().insert(b));
        assert forall|i: int| 0 <= i < r.len() implies {
            let x = #[trigger] r[i];
            x == b || sorted.contains(x)
        } by {
            if i < inner.len() {
                let x = inner[i];
                if x != b {
                    let k = choose|k: int| 0 <= k < rest.len() && rest[k] == x;
                    assert(sorted[k] == x);
                }
            } else {
                assert(sorted[sorted.len() - 1] == r[i]);
            }
        }
        if ordered(key, sorted) {
            assert(ordered(key, rest)) by {
                assert forall|i: int, j: int| 0 <= i < j < rest.len() implies comes_first(
                    key,
                    rest[i],
                    rest[j],
                ) by {
                    assert(rest[i] == sorted[i] && rest[j] == sorted[j]);
                }
            }
            assert forall|i: int, j: int| 0 <= i < j < r.len() implies comes_first(
                key,
                r[i],
                r[j],
            ) by {
                if j == inner.len() {
                    let x = inner[i];
                    if x == b {
                        lemma_comes_first_total(key, sorted.last(), b);
                    } else {
                        let k = choose|k: int| 0 <= k < rest.len() && rest[k] == x;
                        assert(sorted[k] == x);
                    }
                } else {
                    assert(r[i] == inner[i] && r[j] == inner[j]);
                }
            }
        }
    }
}

/// Ordering a run of benchmarks keeps each of them, as often as it was given,
/// and leaves each where it may stand before all that follow it.
pub proof fn lemma_sorted_by(key: SortKey, s: Seq<BenchmarkView>)
    ensures
        sorted_by(key, s).len() == s.len(),
        sorted_by(key, s).to_multiset() == s.to_multiset(),
        ordered(key, sorted_by(key, s)),
    decreases s.len(),
{
    broadcast use vstd::seq_lib::group_to_multiset_ensures;

    if s.len() == 0 {
        assert(s =~= Seq::<BenchmarkView>::empty());
    } else {
        lemma_sorted_by(key, s.drop_last());
        lemma_inserted(key, sorted_by(key, s.drop_last()), s.last());
        assert(s =~= s.drop_last().push(s.last()));
    }
}

/// A run that is in order already is left as it is, so benchmarks that the
/// key does not tell apart keep their places.
pub proof fn lemma_sorted_by_keeps_ordered(key: SortKey, s: Seq<BenchmarkView>)
    requires
        ordered(key, s),
    ensures
        sorted_by(key, s) == s,
    decreases s.len(),
{
    if s.len() == 0 {
        assert(s =~= Seq::<BenchmarkView>::empty());
    } else {
        let rest = s.drop_last();
        assert(ordered(key, rest)) by {
            assert forall|i: int, j: int| 0 <= i < j < rest.len() implies comes_first(
                key,
                rest[i],
                rest[j],
            ) by {
                assert(rest[i] == s[i] && rest[j] == s[j]);
            }
        }
        lemma_sorted_by_keeps_ordered(key, rest);
        if rest.len() > 0 {
            assert(comes_first(key, s[rest.len() - 1], s[s.len() - 1]));
        }
        assert(s =~= rest.push(s.last()));
    }
}

/// The shortest duration among the benchmarks of `s`, which is not empty.
pub open spec fn min_picos(s: Seq<BenchmarkView>) -> u64
    recommends
        s.len() > 0,
    decreases s.len(),
{
    if s.len() <= 1 {
        s.last().picos
    } else if s.last().picos < min_picos(s.drop_last()) {
        s.last().picos
    } else {
        min_picos(s.drop_last())
    }
}

/// The longest duration among the benchmarks of `s`, which is not empty.
pub open spec fn max_picos(s: Seq<BenchmarkView>) -> u64
    recommends
        s.len() > 0,
    decreases s.len(),
{
    if s.len() <= 1 {
        s.last().picos
    } else if s.last().picos > max_picos(s.drop_last()) {
        s.last().picos
    } else {
        max_picos(s.drop_last())
    }
}

/// Whether some benchmark of `s` lasts `p` picoseconds and none lasts less.
pub open spec fn is_shortest(s: Seq<BenchmarkView>, p: u64) -> bool {
    &&& exists|i: int| 0 <= i < s.len() && (#[trigger] s[i]).picos == p
    &&& forall|i: int| 0 <= i < s.len() ==> (#[trigger] s[i]).picos >= p
}

/// Whether some benchmark of `s` lasts `p` picoseconds and none lasts longer.
pub open spec fn is_longest(s: Seq<BenchmarkView>, p: u64) -> bool {
    &&& exists|i: int| 0 <= i < s.len() && (#[trigger] s[i]).picos == p
    &&& forall|i: int| 0 <= i < s.len() ==> (#[trigger] s[i]).picos <= p
}

/// The shortest and the longest duration are durations of benchmarks of the
/// run, and bound all the others.
pub proof fn lemma_extremes(s: Seq<BenchmarkView>)
    requires
        s.len() > 0,
    ensures
        is_shortest(s, min_picos(s)),
        is_longest(s, max_picos(s)),
    decreases s.len(),
{
    if s.len() == 1 {
        assert(s[0].picos == min_picos(s));
        assert(s[0].picos == max_picos(s));
    } else {
        let rest = s.drop_last();
        lemma_extremes(rest);
        let i = choose|i: int| 0 <= i < rest.len() && (#[trigger] rest[i]).picos == min_picos(rest);
        let j = choose|j: int| 0 <= j < rest.len() && (#[trigger] rest[j]).picos == max_picos(rest);
        assert(s[i] == rest[i] && s[j] == rest[j]);
        assert(s[s.len() - 1] == s.last());
        assert forall|k: int| 0 <= k < s.len() implies min_picos(s) <= (#[trigger] s[k]).picos
            && s[k].picos <= max_picos(s) by {
            if k < rest.len() {
                assert(rest[k] == s[k]);
            }
        }
    }
}

/// Two runs that hold the same benchmarks, each as often, have the same
/// shortest and the same longest duration.
pub proof fn lemma_extremes_of_same_benchmarks(s: Seq<BenchmarkView>, t: Seq<BenchmarkView>)
    requires
        s.len() > 0,
        s.to_multiset() == t.to_multiset(),
    ensures
        t.len() == s.len(),
        min_picos(s) == min_picos(t),
        max_picos(s) == max_picos(t),
{
    broadcast use vstd::seq_lib::group_to_multiset_ensures;

    assert(t.len() == s.len()) by {
        assert(s.to_multiset().len() == s.len());
        assert(t.to_multiset().len() == t.len());
    }
    lemma_extremes(s);
    lemma_extremes(t);
    assert forall|i: int| 0 <= i < s.len() implies t.contains(#[trigger] s[i]) by {
        assert(s.contains(s[i]));
        assert(s.to_multiset().count(s[i]) > 0);
    }
    assert forall|i: int| 0 <= i < t.len() implies s.contains(#[trigger] t[i]) by {
        assert(t.contains(t[i]));
        assert(t.to_multiset().count(t[i]) > 0);
    }
    let i = choose|i: int| 0 <= i < s.len() && (#[trigger] s[i]).picos == min_picos(s);
    let j = choose|j: int| 0 <= j < s.len() && (#[trigger] s[j]).picos == max_picos(s);
    let k = choose|k: int| 0 <= k < t.len() && (#[trigger] t[k]).picos == min_picos(t);
    let l = choose|l: int| 0 <= l < t.len() && (#[trigger] t[l]).picos == max_picos(t);
    assert(t.contains(s[i]) && t.contains(s[j]) && s.contains(t[k]) && s.contains(t[l]));
}

/// The run in the order of durations begins with a benchmark of the shortest
/// duration and ends with one of the longest.
pub proof fn lemma_perf_order_extremes(s: Seq<BenchmarkView>)
    requires
        s.len() > 0,
    ensures
        perf_order(s).len() == s.len(),
        perf_order(s).first().picos == min_picos(s),
        perf_order(s).last().picos == max_picos(s),
{
    let r = perf_order(s);
    lemma_sorted_by(SortKey::Duration, s);
    lemma_extremes_of_same_benchmarks(s, r);
    lemma_extremes(r);
    let i = choose|i: int| 0 <= i < r.len() && (#[trigger] r[i]).picos == min_picos(r);
    let j = choose|j: int| 0 <= j < r.len() && (#[trigger] r[j]).picos == max_picos(r);
    assert(i > 0 ==> comes_first(SortKey::Duration, r[0], r[i]));
    assert(j < r.len() - 1 ==> comes_first(SortKey::Duration, r[j], r[r.len() - 1]));
    assert(r[0].picos >= min_picos(r));
    assert(r[r.len() - 1].picos <= max_picos(r));
}

/// The order from the fastest to the slowest holds the benchmarks that were
/// given, each as often, and no duration in it is shorter than one before
/// it.
pub proof fn lemma_perf_order(s: Seq<BenchmarkView>)
    ensures
        perf_order(s).len() == s.len(),
        perf_order(s).to_multiset() == s.to_multiset(),
        forall|i: int, j: int|
            0 <= i <= j < s.len() ==> perf_order(s)[i].picos <= perf_order(s)[j].picos,
{
    lemma_sorted_by(SortKey::Duration, s);
    let r = perf_order(s);
    assert forall|i: int, j: int| 0 <= i <= j < s.len() implies r[i].picos <= r[j].picos by {
        if i < j {
            assert(comes_first(SortKey::Duration, r[i], r[j]));
        }
    }
}

/// The order of names holds the benchmarks that were given, each as often,
/// and no name in it stands before one that precedes it.
pub proof fn lemma_name_order(s: Seq<BenchmarkView>)
    ensures
        name_order(s).len() == s.len(),
        name_order(s).to_multiset() == s.to_multiset(),
        forall|i: int, j: int|
            0 <= i <= j < s.len() ==> text_le(name_order(s)[i].name, name_order(s)[j].name),
{
    lemma_sorted_by(SortKey::Name, s);
    let r = name_order(s);
    assert forall|i: int, j: int| 0 <= i <= j < s.len() implies text_le(
        r[i].name,
        r[j].name,
    ) by {
        if i < j {
            assert(comes_first(SortKey::Name, r[i], r[j]));
        } else {
            lemma_text_le_total(r[i].name, r[i].name);
        }
    }
}

/// The place at which a benchmark is put into a run: every benchmark from
/// there on may not stand before it, and the one just before that place may.
pub proof fn lemma_insert_place(key: SortKey, sorted: Seq<BenchmarkView>, b: BenchmarkView) -> (pos:
    int)
    ensures
        0 <= pos <= sorted.len(),
        inserted(key, sorted, b) == sorted.take(pos).push(b) + sorted.skip(pos),
        pos > 0 ==> comes_first(key, sorted[pos - 1], b),
        forall|k: int| pos <= k < sorted.len() ==> !comes_first(key, #[trigger] sorted[k], b),
    decreases sorted.len(),
{
    let pos = if sorted.len() == 0 || comes_first(key, sorted.last(), b) {
        sorted.len() as int
    } else {
        lemma_insert_place(key, sorted.drop_last(), b)
    };
    if sorted.len() > 0 && !comes_first(key, sorted.last(), b) {
        assert forall|k: int| pos <= k < sorted.len() implies !comes_first(
            key,
            #[trigger] sorted[k],
            b,
        ) by {
            if k < sorted.len() - 1 {
                assert(sorted.drop_last()[k] == sorted[k]);
            }
        }
        assert(pos > 0 ==> sorted.drop_last()[pos - 1] == sorted[pos - 1]);
    }
    lemma_inserted_at(key, sorted, b, pos);
    pos
}

/// Where each benchmark of the ordered run stood in the run as given. Each
/// place occurs once; a benchmark may stand before all that follow it; and of
/// two benchmarks that the key does not tell apart, the one given first comes
/// first.
pub proof fn lemma_sorted_by_places(key: SortKey, s: Seq<BenchmarkView>) -> (places: Seq<int>)
    ensures
        places.len() == s.len(),
        sorted_by(key, s).len() == s.len(),
        forall|k: int|
            0 <= k < s.len() ==> 0 <= #[trigger] places[k] < s.len() && sorted_by(key, s)[k]
                == s[places[k]],
        forall|a: int, b: int| 0 <= a < b < s.len() ==> places[a] != places[b],
        forall|a: int, b: int|
            0 <= a < b < s.len() ==> comes_first(key, s[places[a]], s[places[b]]),
        forall|a: int, b: int|
            0 <= a < b < s.len() && comes_first(key, s[places[b]], s[places[a]]) ==> places[a]
                < places[b],
    decreases s.len(),
{
    if s.len() == 0 {
        Seq::empty()
    } else {
        let rest = s.drop_last();
        let last = s.len() - 1;
        let before = sorted_by(key, rest);
        let inner = lemma_sorted_by_places(key, rest);
        let pos = lemma_insert_place(key, before, s.last());
        let places = inner.take(pos).push(last) + inner.skip(pos);
        let r = sorted_by(key, s);
        lemma_sorted_by(key, rest);
        assert(r == before.take(pos).push(s.last()) + before.skip(pos));
        assert forall|k: int| 0 <= k < s.len() implies 0 <= #[trigger] places[k] < s.len() && r[k]
            == s[places[k]] by {
            if k < pos {
                assert(places[k] == inner[k] && r[k] == before[k]);
                assert(rest[inner[k]] == s[inner[k]]);
            } else if k > pos {
                assert(places[k] == inner[k - 1] && r[k] == before[k - 1]);
                assert(rest[inner[k - 1]] == s[inner[k - 1]]);
            }
        }
        assert forall|a: int, b: int| 0 <= a < b < s.len() implies places[a] != places[b]
            && comes_first(key, s[places[a]], s[places[b]]) && (comes_first(
            key,
            s[places[b]],
            s[places[a]],
        ) ==> places[a] < places[b]) by {
            let x = if a < pos {
                a
            } else {
                a - 1
            };
            let y = if b < pos {
                b
            } else {
                b - 1
            };
            if a != pos && b != pos {
                assert(places[a] == inner[x] && places[b] == inner[y]);
                assert(rest[inner[x]] == s[inner[x]] && rest[inner[y]] == s[inner[y]]);
            } else if b == pos {
                assert(places[a] == inner[a] && places[b] == last);
                assert(rest[inner[a]] == s[inner[a]]);
                assert(before[a] == rest[inner[a]]);
                if a < pos - 1 {
                    assert(comes_first(key, before[a], before[pos - 1]));
                    lemma_comes_first_trans(key, before[a], before[pos - 1], s.last());
                }
            } else {
                assert(places[a] == last && places[b] == inner[b - 1]);
                assert(rest[inner[b - 1]] == s[inner[b - 1]]);
                assert(before[b - 1] == rest[inner[b - 1]]);
                assert(!comes_first(key, before[b - 1], s.last()));
                lemma_comes_first_total(key, before[b - 1], s.last());
            }
        }
        places
    }
}

} // verus!
