//! Counting groups of cities that are tied to each other.
//!
//! A district is a list of entries, each a city with the cities that it is
//! tied to. The entries are taken in the order in which they are given: the
//! cities of an entry join the first group that already holds one of them,
//! or else form a new group. Groups are not joined with each other later;
//! instead the count is the number of groups less one for every pair of
//! groups that share a city.

use crate::text::{comma_separated, push_decimal, string_of};
use vstd::prelude::*;

verus! {

/// A name, as the characters of a string.
pub type Name = Seq<char>;

/// The views of the strings in `v`.
pub open spec fn names_of(v: Seq<String>) -> Seq<Name> {
    v.map_values(|s: String| s@)
}

/// The set of the elements of `names`.
pub open spec fn name_set(names: Seq<Name>) -> Set<Name> {
    Set::new(|n: Name| exists|i: int| 0 <= i < names.len() && #[trigger] names[i] == n)
}

/// Two sets share an element.
pub open spec fn touches(a: Set<Name>, b: Set<Name>) -> bool {
    exists|n: Name| #[trigger] a.contains(n) && b.contains(n)
}

/// The cities of an entry: the city itself and those that it is tied to.
pub open spec fn entry_set(entry: (String, Vec<String>)) -> Set<Name> {
    name_set(names_of(entry.1@)).insert(entry.0@)
}

/// The index of the first of `groups`, from `k` on, that shares a city with
/// `cities`.
pub open spec fn first_touching(groups: Seq<Set<Name>>, cities: Set<Name>, k: int) -> Option<int>
    decreases groups.len() - k,
{
    if k < 0 || k >= groups.len() {
        None
    } else if touches(groups[k], cities) {
        Some(k)
    } else {
        first_touching(groups, cities, k + 1)
    }
}

/// `groups` after `cities` have joined the first group that shares a city
/// with them, or have formed a new group at the end.
pub open spec fn absorbed(groups: Seq<Set<Name>>, cities: Set<Name>) -> Seq<Set<Name>> {
    match first_touching(groups, cities, 0) {
        Some(k) => groups.update(k, groups[k].union(cities)),
        None => groups.push(cities),
    }
}

/// The groups that the entries form, taken in their order.
pub open spec fn grouped(entries: Seq<(String, Vec<String>)>) -> Seq<Set<Name>>
    decreases entries.len(),
{
    if entries.len() == 0 {
        Seq::empty()
    } else {
        absorbed(grouped(entries.drop_last()), entry_set(entries.last()))
    }
}

/// How many of the groups between `i` and `j`, both left out, share a city
/// with group `i`.
pub open spec fn touching_after(groups: Seq<Set<Name>>, i: int, j: int) -> nat
    decreases j - i,
{
    if j <= i + 1 {
        0
    } else {
        touching_after(groups, i, j - 1) + (if touches(groups[i], groups[j - 1]) {
            1nat
        } else {
            0nat
        })
    }
}

/// How many pairs of groups share a city, counting the pairs whose first
/// group comes before group `i`.
pub open spec fn overlaps(groups: Seq<Set<Name>>, i: int) -> nat
    decreases i,
{
    if i <= 0 {
        0
    } else {
        overlaps(groups, i - 1) + touching_after(groups, i - 1, groups.len() as int)
    }
}

/// The count for a district: its groups, less one for every pair of them
/// that share a city. It can come out negative; then there is no count.
pub open spec fn group_count(entries: Seq<(String, Vec<String>)>) -> int {
    let groups = grouped(entries);
    groups.len() - overlaps(groups, groups.len() as int)
}

/// The counts of the districts, or `None` if one of them has none.
pub open spec fn district_counts(districts: Seq<Vec<(String, Vec<String>)>>) -> Option<Seq<nat>>
    decreases districts.len(),
{
    if districts.len() == 0 {
        Some(Seq::empty())
    } else {
        match district_counts(districts.drop_last()) {
            None => None,
            Some(counts) => if group_count(districts.last()@) < 0 || group_count(
                districts.last()@,
            ) > usize::MAX {
                None
            } else {
                Some(counts.push(group_count(districts.last()@) as nat))
            },
        }
    }
}

/// A set of city names, held in a vector in which no name occurs twice.
pub struct CitySet {
    names: Vec<String>,
}

impl View for CitySet {
    type V = Set<Name>;

    /// The names in the set.
    closed spec fn view(&self) -> Set<Name> {
        name_set(names_of(self.names@))
    }
}

impl CitySet {
    /// No name occurs twice.
    pub closed spec fn wf(&self) -> bool {
        forall|i: int, j: int|
            0 <= i < j < self.names@.len() ==> (#[trigger] self.names@[i])@ != (
            #[trigger] self.names@[j])@
    }

    /// The empty set.
    pub fn new() -> (set: Self)
        ensures
            set.wf(),
            set@ == Set::<Name>::empty(),
    {
        let set = CitySet { names: Vec::new() };
        proof {
            assert(set@ =~= Set::<Name>::empty());
        }
        set
    }

    /// Whether `name` is in the set.
    pub fn contains(&self, name: &String) -> (found: bool)
        ensures
            found == self@.contains(name@),
    {
        let mut i: usize = 0;
        while i < self.names.len()
            invariant
                i <= self.names.len(),
                forall|k: int| 0 <= k < i ==> (#[trigger] self.names@[k])@ != name@,
            decreases self.names.len() - i,
        {
            if self.names[i] == *name {
                proof {
                    assert(names_of(self.names@)[i as int] == name@);
                }
                return true;
            }
            i += 1;
        }
        proof {
            if self@.contains(name@) {
                let k = choose|k: int|
                    0 <= k < names_of(self.names@).len() && #[trigger] names_of(self.names@)[k]
                        == name@;
                assert(self.names@[k]@ == name@);
            }
        }
        false
    }

    /// Puts `name` into the set.
    pub fn insert(&mut self, name: String)
        requires
            old(self).wf(),
        ensures
            final(self).wf(),
            final(self)@ == old(self)@.insert(name@),
    {
        if !self.contains(&name) {
            let ghost before = self.names@;
            self.names.push(name);
            proof {
                assert forall|n: Name| self@.contains(n) <==> old(self)@.insert(name@).contains(
                    n,
                ) by {
                    if self@.contains(n) {
                        let k = choose|k: int|
                            0 <= k < names_of(self.names@).len() && #[trigger] names_of(
                                self.names@,
                            )[k] == n;
                        if k < before.len() {
                            assert(names_of(before)[k] == n);
                        }
                    }
                    if old(self)@.contains(n) {
                        let k = choose|k: int|
                            0 <= k < names_of(before).len() && #[trigger] names_of(before)[k] == n;
                        assert(names_of(self.names@)[k] == n);
                    }
                    if n == name@ {
                        assert(names_of(self.names@)[before.len() as int] == n);
                    }
                }
                assert(self@ =~= old(self)@.insert(name@));
                assert forall|i: int, j: int| 0 <= i < j < self.names@.len() implies (
                #[trigger] self.names@[i])@ != (#[trigger] self.names@[j])@ by {
                    if j == before.len() {
                        assert(names_of(before)[i] == before[i]@);
                    } else {
                        assert(self.names@[i] == before[i] && self.names@[j] == before[j]);
                    }
                }
            }
        } else {
            proof {
                assert(self@ =~= old(self)@.insert(name@));
            }
        }
    }

    /// Whether the set shares a name with `other`.
    pub fn intersects(&self, other: &CitySet) -> (shared: bool)
        ensures
            shared == touches(self@, other@),
    {
        let mut i: usize = 0;
        while i < self.names.len()
            invariant
                i <= self.names.len(),
                forall|k: int| 0 <= k < i ==> !other@.contains((#[trigger] self.names@[k])@),
            decreases self.names.len() - i,
        {
            if other.contains(&self.names[i]) {
                proof {
                    assert(names_of(self.names@)[i as int] == self.names@[i as int]@);
                    assert(self@.contains(self.names@[i as int]@));
                }
                return true;
            }
            i += 1;
        }
        proof {
            if touches(self@, other@) {
                let n = choose|n: Name| #[trigger] self@.contains(n) && other@.contains(n);
                let k = choose|k: int|
                    0 <= k < names_of(self.names@).len() && #[trigger] names_of(self.names@)[k]
                        == n;
                assert(self.names@[k]@ == n);
            }
        }
        false
    }

    /// Puts every name of `other` into the set.
    pub fn extend(&mut self, other: &CitySet)
        requires
            old(self).wf(),
        ensures
            final(self).wf(),
            final(self)@ == old(self)@.union(other@),
    {
        let mut i: usize = 0;
        proof {
            assert(names_of(other.names@).take(0) =~= Seq::<Name>::empty());
            assert(self@.union(name_set(Seq::<Name>::empty())) =~= self@);
        }
        while i < other.names.len()
            invariant
                i <= other.names.len(),
                self.wf(),
                self@ == old(self)@.union(name_set(names_of(other.names@).take(i as int))),
            decreases other.names.len() - i,
        {
            let ghost done = name_set(names_of(other.names@).take(i as int));
            let ghost next = name_set(names_of(other.names@).take(i + 1));
            let name = other.names[i].clone();
            proof {
                let s = names_of(other.names@);
                assert(s[i as int] == name@);
                assert forall|n: Name| next.contains(n) <==> done.insert(name@).contains(n) by {
                    if next.contains(n) {
                        let k = choose|k: int|
                            0 <= k < s.take(i + 1).len() && #[trigger] s.take(i + 1)[k] == n;
                        if k < i {
                            assert(s.take(i as int)[k] == n);
                        }
                    }
                    if done.contains(n) {
                        let k = choose|k: int|
                            0 <= k < s.take(i as int).len() && #[trigger] s.take(i as int)[k] == n;
                        assert(s.take(i + 1)[k] == n);
                    }
                    if n == name@ {
                        assert(s.take(i + 1)[i as int] == n);
                    }
                }
                assert(next =~= done.insert(name@));
                assert(old(self)@.union(done).insert(name@) =~= old(self)@.union(next));
            }
            self.insert(name);
            i += 1;
        }
        proof {
            assert(names_of(other.names@).take(i as int) =~= names_of(other.names@));
        }
    }
}

/// The views of the sets in `groups`.
pub open spec fn set_views(groups: Seq<CitySet>) -> Seq<Set<Name>> {
    groups.map_values(|g: CitySet| g@)
}

/// The cities of an entry as a set.
fn cities_of(entry: &(String, Vec<String>)) -> (cities: CitySet)
    ensures
        cities.wf(),
        cities@ == entry_set(*entry),
{
    let mut cities = CitySet::new();
    cities.insert(entry.0.clone());
    let mut i: usize = 0;
    proof {
        assert(names_of(entry.1@).take(0) =~= Seq::<Name>::empty());
        assert(name_set(Seq::<Name>::empty()) =~= Set::<Name>::empty());
    }
    while i < entry.1.len()
        invariant
            i <= entry.1.len(),
            cities.wf(),
            cities@ == name_set(names_of(entry.1@).take(i as int)).insert(entry.0@),
        decreases entry.1.len() - i,
    {
        let ghost s = names_of(entry.1@);
        let ghost done = name_set(s.take(i as int));
        let ghost next = name_set(s.take(i + 1));
        let name = entry.1[i].clone();
        proof {
            assert(s[i as int] == name@);
            assert forall|n: Name| next.contains(n) <==> done.insert(name@).contains(n) by {
                if next.contains(n) {
                    let k = choose|k: int|
                        0 <= k < s.take(i + 1).len() && #[trigger] s.take(i + 1)[k] == n;
                    if k < i {
                        assert(s.take(i as int)[k] == n);
                    }
                }
                if done.contains(n) {
                    let k = choose|k: int|
                        0 <= k < s.take(i as int).len() && #[trigger] s.take(i as int)[k] == n;
                    assert(s.take(i + 1)[k] == n);
                }
                if n == name@ {
                    assert(s.take(i + 1)[i as int] == n);
                }
            }
            assert(next =~= done.insert(name@));
            assert(done.insert(entry.0@).insert(name@) =~= next.insert(entry.0@));
        }
        cities.insert(name);
        i += 1;
    }
    proof {
        assert(names_of(entry.1@).take(i as int) =~= names_of(entry.1@));
    }
    cities
}

/// The groups that the entries form: see [`grouped`].
pub fn group_cities(entries: &Vec<(String, Vec<String>)>) -> (groups: Vec<CitySet>)
    ensures
        set_views(groups@) == grouped(entries@),
        forall|k: int| 0 <= k < groups@.len() ==> (#[trigger] groups@[k]).wf(),
{
    let mut city_sets: Vec<CitySet> = Vec::new();
    let mut e: usize = 0;
    proof {
        assert(entries@.take(0) =~= Seq::<(String, Vec<String>)>::empty());
        assert(set_views(city_sets@) =~= Seq::<Set<Name>>::empty());
    }
    while e < entries.len()
        invariant
            e <= entries.len(),
            set_views(city_sets@) == grouped(entries@.take(e as int)),
            forall|k: int| 0 <= k < city_sets@.len() ==> (#[trigger] city_sets@[k]).wf(),
        decreases entries.len() - e,
    {
        let city_set = cities_of(&entries[e]);
        let ghost before = set_views(city_sets@);
        proof {
            assert(entries@.take(e + 1).drop_last() =~= entries@.take(e as int));
            assert(entries@.take(e + 1).last() == entries@[e as int]);
        }
        let mut is_intersect = false;
        let mut k: usize = 0;
        while k < city_sets.len()
            invariant_except_break
                !is_intersect,
                set_views(city_sets@) == before,
                first_touching(before, city_set@, k as int) == first_touching(
                    before,
                    city_set@,
                    0,
                ),
            invariant
                k <= city_sets.len(),
                city_set.wf(),
                forall|m: int| 0 <= m < city_sets@.len() ==> (#[trigger] city_sets@[m]).wf(),
            ensures
                forall|m: int| 0 <= m < city_sets@.len() ==> (#[trigger] city_sets@[m]).wf(),
                is_intersect ==> set_views(city_sets@) == absorbed(before, city_set@),
                !is_intersect ==> set_views(city_sets@) == before && first_touching(
                    before,
                    city_set@,
                    0,
                ) is None,
            decreases city_sets.len() - k,
        {
            proof {
                assert(before[k as int] == city_sets@[k as int]@);
            }
            if city_sets[k].intersects(&city_set) {
                let ghost old_sets = city_sets@;
                city_sets[k].extend(&city_set);
                is_intersect = true;
                proof {
                    assert(set_views(city_sets@) =~= before.update(
                        k as int,
                        before[k as int].union(city_set@),
                    ));
                }
                break ;
            }
            k += 1;
        }
        if !is_intersect {
            proof {
                assert(set_views(city_sets@.push(city_set)) =~= before.push(city_set@));
            }
            city_sets.push(city_set);
        }
        e += 1;
    }
    proof {
        assert(entries@.take(e as int) =~= entries@);
    }
    city_sets
}

/// The pairs counted up to a point are among those counted in all.
proof fn lemma_overlaps_grow(groups: Seq<Set<Name>>, i: int, j: int)
    requires
        0 <= i < groups.len(),
        i < j <= groups.len(),
    ensures
        overlaps(groups, i) + touching_after(groups, i, j) <= overlaps(groups, groups.len() as int),
{
    lemma_touching_after_grows(groups, i, j, groups.len() as int);
    lemma_overlaps_monotone(groups, i + 1, groups.len() as int);
}

/// The count of [`touching_after`] grows with its end.
proof fn lemma_touching_after_grows(groups: Seq<Set<Name>>, i: int, j: int, k: int)
    requires
        j <= k,
    ensures
        touching_after(groups, i, j) <= touching_after(groups, i, k),
    decreases k - j,
{
    if j < k {
        lemma_touching_after_grows(groups, i, j, k - 1);
    }
}

/// The count of [`overlaps`] grows with its end.
proof fn lemma_overlaps_monotone(groups: Seq<Set<Name>>, i: int, k: int)
    requires
        i <= k,
    ensures
        overlaps(groups, i) <= overlaps(groups, k),
    decreases k - i,
{
    if i < k {
        lemma_overlaps_monotone(groups, i, k - 1);
    }
}

/// The count for a district: see [`group_count`]. `None` where it would be
/// negative.
pub fn count_groups(entries: &Vec<(String, Vec<String>)>) -> (count: Option<usize>)
    ensures
        match count {
            Some(c) => c == group_count(entries@),
            None => group_count(entries@) < 0,
        },
{
    let city_sets = group_cities(entries);
    let ghost groups = set_views(city_sets@);
    let n = city_sets.len();
    let mut c: usize = n;
    let mut i: usize = 0;
    while i < n
        invariant
            i <= n,
            n == city_sets.len(),
            groups == set_views(city_sets@),
            groups == grouped(entries@),
            c == n - overlaps(groups, i as int),
        decreases n - i,
    {
        let mut j: usize = i + 1;
        while j < n
            invariant
                i < n,
                i < j <= n || j == i + 1,
                n == city_sets.len(),
                groups == set_views(city_sets@),
                groups == grouped(entries@),
                c == n - overlaps(groups, i as int) - touching_after(groups, i as int, j as int),
            decreases n - j,
        {
            proof {
                assert(groups[i as int] == city_sets@[i as int]@);
                assert(groups[j as int] == city_sets@[j as int]@);
            }
            if city_sets[i].intersects(&city_sets[j]) {
                if c == 0 {
                    proof {
                        lemma_overlaps_grow(groups, i as int, j + 1);
                    }
                    return None;
                }
                c -= 1;
            }
            j += 1;
        }
        proof {
            if i + 1 >= n {
                assert(touching_after(groups, i as int, n as int) == 0);
            }
        }
        i += 1;
    }
    Some(c)
}

/// `a` comes before `b` in the order of names: character by character, and
/// a name before every longer name that begins with it.
pub open spec fn name_before(a: Name, b: Name) -> bool
    decreases a.len(),
{
    if b.len() == 0 {
        false
    } else if a.len() == 0 {
        true
    } else if a[0] != b[0] {
        a[0] < b[0]
    } else {
        name_before(a.drop_first(), b.drop_first())
    }
}

/// `order` with the index `x` put in behind the last index whose name does
/// not come after that of `x`.
pub open spec fn inserted(names: Seq<Name>, order: Seq<int>, x: int) -> Seq<int>
    decreases order.len(),
{
    if order.len() > 0 && name_before(names[x], names[order.last()]) {
        inserted(names, order.drop_last(), x).push(order.last())
    } else {
        order.push(x)
    }
}

/// The indices of the first `k` names, in the order of the names. Indices of
/// equal names keep their order.
pub open spec fn name_order(names: Seq<Name>, k: int) -> Seq<int>
    decreases k,
{
    if k <= 0 {
        Seq::empty()
    } else {
        inserted(names, name_order(names, k - 1), k - 1)
    }
}

/// The names of the districts.
pub open spec fn district_names(named: Seq<(String, Vec<(String, Vec<String>)>)>) -> Seq<Name> {
    named.map_values(|d: (String, Vec<(String, Vec<String>)>)| d.0@)
}

/// The entries of the districts, in the order of the names of the districts.
pub open spec fn in_name_order(named: Seq<(String, Vec<(String, Vec<String>)>)>) -> Seq<
    Vec<(String, Vec<String>)>,
> {
    Seq::new(
        named.len(),
        |i: int| named[name_order(district_names(named), named.len() as int)[i]].1,
    )
}

/// Names with a common beginning compare as their endings do.
proof fn lemma_name_before_skip(a: Name, b: Name, i: int)
    requires
        0 <= i <= a.len(),
        i <= b.len(),
        a.take(i) == b.take(i),
    ensures
        name_before(a, b) == name_before(a.skip(i), b.skip(i)),
    decreases i,
{
    if i == 0 {
        assert(a.skip(0) =~= a);
        assert(b.skip(0) =~= b);
    } else {
        assert(a[0] == a.take(i)[0] && b[0] == b.take(i)[0]);
        assert(a.drop_first().take(i - 1) =~= a.take(i).drop_first());
        assert(b.drop_first().take(i - 1) =~= b.take(i).drop_first());
        lemma_name_before_skip(a.drop_first(), b.drop_first(), i - 1);
        assert(a.drop_first().skip(i - 1) =~= a.skip(i));
        assert(b.drop_first().skip(i - 1) =~= b.skip(i));
    }
}

/// Whether the name `a` comes before the name `b`.
pub fn comes_before(a: &String, b: &String) -> (before: bool)
    ensures
        before == name_before(a@, b@),
{
    let x = crate::text::chars_of(a.as_str());
    let y = crate::text::chars_of(b.as_str());
    let mut i: usize = 0;
    proof {
        assert(x@.take(0) =~= y@.take(0));
    }
    while i < x.len() && i < y.len()
        invariant
            i <= x.len(),
            i <= y.len(),
            x@ == a@,
            y@ == b@,
            x@.take(i as int) == y@.take(i as int),
        decreases x.len() - i,
    {
        if x[i] != y[i] {
            proof {
                lemma_name_before_skip(x@, y@, i as int);
            }
            return x[i] < y[i];
        }
        proof {
            assert(x@.take(i + 1) =~= x@.take(i as int).push(x@[i as int]));
            assert(y@.take(i + 1) =~= y@.take(i as int).push(y@[i as int]));
        }
        i += 1;
    }
    proof {
        lemma_name_before_skip(x@, y@, i as int);
    }
    i < y.len()
}

/// An index that belongs before the end of an order goes in before it.
proof fn lemma_inserted_before_tail(names: Seq<Name>, order: Seq<int>, x: int, j: int)
    requires
        0 <= j <= order.len(),
        forall|i: int| j <= i < order.len() ==> name_before(names[x], names[#[trigger] order[i]]),
    ensures
        inserted(names, order, x) == inserted(names, order.take(j), x) + order.skip(j),
    decreases order.len() - j,
{
    if j == order.len() {
        assert(order.take(j) =~= order);
        assert(inserted(names, order, x) + Seq::<int>::empty() =~= inserted(names, order, x));
        assert(order.skip(j) =~= Seq::<int>::empty());
    } else {
        let rest = order.drop_last();
        assert(name_before(names[x], names[order[order.len() - 1]]));
        assert forall|i: int| j <= i < rest.len() implies name_before(
            names[x],
            names[#[trigger] rest[i]],
        ) by {
            assert(rest[i] == order[i]);
        }
        lemma_inserted_before_tail(names, rest, x, j);
        assert(rest.take(j) =~= order.take(j));
        assert((inserted(names, rest.take(j), x) + rest.skip(j)).push(order.last()) =~= inserted(
            names,
            order.take(j),
            x,
        ) + order.skip(j));
    }
}

/// The order of the first `k` names holds each index below `k`, and no other.
pub proof fn lemma_name_order_indices(names: Seq<Name>, k: int)
    requires
        0 <= k,
    ensures
        name_order(names, k).len() == k,
        forall|i: int| 0 <= i < k ==> 0 <= #[trigger] name_order(names, k)[i] < k,
    decreases k,
{
    if k > 0 {
        lemma_name_order_indices(names, k - 1);
        lemma_inserted_indices(names, name_order(names, k - 1), k - 1, k);
    }
}

/// Putting an index in adds it and keeps the rest.
proof fn lemma_inserted_indices(names: Seq<Name>, order: Seq<int>, x: int, bound: int)
    requires
        0 <= x < bound,
        forall|i: int| 0 <= i < order.len() ==> 0 <= #[trigger] order[i] < bound,
    ensures
        inserted(names, order, x).len() == order.len() + 1,
        forall|i: int|
            0 <= i < order.len() + 1 ==> 0 <= #[trigger] inserted(names, order, x)[i] < bound,
    decreases order.len(),
{
    if order.len() > 0 && name_before(names[x], names[order.last()]) {
        let rest = order.drop_last();
        assert forall|i: int| 0 <= i < rest.len() implies 0 <= #[trigger] rest[i] < bound by {
            assert(rest[i] == order[i]);
        }
        lemma_inserted_indices(names, rest, x, bound);
        assert(0 <= order[order.len() - 1] < bound);
    }
}

/// Of two names at most one comes before the other.
pub proof fn lemma_name_before_asymmetric(a: Name, b: Name)
    ensures
        !(name_before(a, b) && name_before(b, a)),
    decreases a.len(),
{
    if a.len() > 0 && b.len() > 0 && a[0] == b[0] {
        lemma_name_before_asymmetric(a.drop_first(), b.drop_first());
    }
}

/// A name that comes before another comes before any third name, or the
/// third name comes before the other.
pub proof fn lemma_name_before_between(a: Name, b: Name, c: Name)
    requires
        name_before(a, b),
    ensures
        name_before(a, c) || name_before(c, b),
    decreases a.len(),
{
    if c.len() > 0 && a.len() > 0 && b.len() > 0 {
        if a[0] == b[0] && a[0] == c[0] {
            lemma_name_before_between(a.drop_first(), b.drop_first(), c.drop_first());
        }
    }
}

/// The names at the indices of `order` do not fall.
pub open spec fn in_order(names: Seq<Name>, order: Seq<int>) -> bool {
    forall|i: int, j: int|
        0 <= i < j < order.len() ==> !name_before(
            names[#[trigger] order[j]],
            names[#[trigger] order[i]],
        )
}

/// Every index of an order with `x` put in is `x` or an index of the order.
proof fn lemma_inserted_from(names: Seq<Name>, order: Seq<int>, x: int)
    ensures
        forall|i: int|
            0 <= i < inserted(names, order, x).len() ==> (#[trigger] inserted(names, order, x)[i])
                == x || order.contains(inserted(names, order, x)[i]),
    decreases order.len(),
{
    let result = inserted(names, order, x);
    if order.len() > 0 && name_before(names[x], names[order.last()]) {
        let rest = order.drop_last();
        lemma_inserted_from(names, rest, x);
        let inner = inserted(names, rest, x);
        assert forall|i: int| 0 <= i < result.len() implies (#[trigger] result[i]) == x
            || order.contains(result[i]) by {
            if i < inner.len() {
                assert(result[i] == inner[i]);
                if inner[i] != x {
                    let j = choose|j: int| 0 <= j < rest.len() && rest[j] == inner[i];
                    assert(order[j] == inner[i]);
                }
            } else {
                assert(result[i] == order[order.len() - 1]);
            }
        }
    } else {
        assert forall|i: int| 0 <= i < result.len() implies (#[trigger] result[i]) == x
            || order.contains(result[i]) by {
            if i < order.len() {
                assert(result[i] == order[i]);
            }
        }
    }
}

/// Putting an index into an order that does not fall gives one that does not
/// fall.
proof fn lemma_inserted_in_order(names: Seq<Name>, order: Seq<int>, x: int)
    requires
        in_order(names, order),
    ensures
        in_order(names, inserted(names, order, x)),
    decreases order.len(),
{
    let result = inserted(names, order, x);
    if order.len() > 0 && name_before(names[x], names[order.last()]) {
        let rest = order.drop_last();
        let last = order.last();
        assert(in_order(names, rest)) by {
            assert forall|i: int, j: int| 0 <= i < j < rest.len() implies !name_before(
                names[#[trigger] rest[j]],
                names[#[trigger] rest[i]],
            ) by {
                assert(rest[i] == order[i] && rest[j] == order[j]);
            }
        }
        lemma_inserted_in_order(names, rest, x);
        lemma_inserted_from(names, rest, x);
        let inner = inserted(names, rest, x);
        assert forall|i: int, j: int| 0 <= i < j < result.len() implies !name_before(
            names[#[trigger] result[j]],
            names[#[trigger] result[i]],
        ) by {
            if j < inner.len() {
                assert(result[i] == inner[i] && result[j] == inner[j]);
            } else {
                assert(result[j] == last);
                assert(result[i] == inner[i]);
                if inner[i] == x {
                    lemma_name_before_asymmetric(names[x], names[last]);
                } else {
                    let m = choose|m: int| 0 <= m < rest.len() && rest[m] == inner[i];
                    assert(order[m] == inner[i]);
                    assert(order[order.len() - 1] == last);
                }
            }
        }
    } else {
        assert forall|i: int, j: int| 0 <= i < j < result.len() implies !name_before(
            names[#[trigger] result[j]],
            names[#[trigger] result[i]],
        ) by {
            if j < order.len() {
                assert(result[i] == order[i] && result[j] == order[j]);
            } else {
                assert(result[j] == x);
                assert(result[i] == order[i]);
                if name_before(names[x], names[order[i]]) {
                    let last = order[order.len() - 1];
                    lemma_name_before_between(names[x], names[order[i]], names[last]);
                }
            }
        }
    }
}

/// The order of the names does not fall: it is sorted.
pub proof fn lemma_name_order_sorted(names: Seq<Name>, k: int)
    ensures
        in_order(names, name_order(names, k)),
    decreases k,
{
    if k > 0 {
        lemma_name_order_sorted(names, k - 1);
        lemma_inserted_in_order(names, name_order(names, k - 1), k - 1);
    }
}

/// The indices of the districts in the order of their names.
fn order_by_name(named: &Vec<(String, Vec<(String, Vec<String>)>)>) -> (order: Vec<usize>)
    ensures
        order@.len() == named@.len(),
        forall|i: int|
            0 <= i < order@.len() ==> #[trigger] order@[i] == name_order(
                district_names(named@),
                named@.len() as int,
            )[i],
        forall|i: int| 0 <= i < order@.len() ==> #[trigger] order@[i] < named@.len(),
{
    let ghost names = district_names(named@);
    let mut order: Vec<usize> = Vec::new();
    let mut k: usize = 0;
    while k < named.len()
        invariant
            k <= named.len(),
            names == district_names(named@),
            order@.len() == k,
            forall|i: int| 0 <= i < k ==> #[trigger] order@[i] == name_order(names, k as int)[i],
            forall|i: int| 0 <= i < k ==> #[trigger] order@[i] < k,
        decreases named.len() - k,
    {
        let ghost before = name_order(names, k as int);
        proof {
            lemma_name_order_indices(names, k as int);
        }
        order.push(k);
        let mut j: usize = k;
        while j > 0 && comes_before(&named[order[j]].0, &named[order[j - 1]].0)
            invariant
                j <= k < named.len(),
                names == district_names(named@),
                before == name_order(names, k as int),
                before.len() == k,
                order@.len() == k + 1,
                order@[j as int] == k,
                forall|i: int| 0 <= i < j ==> #[trigger] order@[i] == before[i],
                forall|i: int| j < i <= k ==> #[trigger] order@[i] == before[i - 1],
                forall|i: int| 0 <= i < k ==> 0 <= #[trigger] before[i] < k,
                forall|i: int|
                    j <= i < k ==> name_before(names[k as int], names[#[trigger] before[i]]),
            decreases j,
        {
            proof {
                assert(names[k as int] == named@[k as int].0@);
                assert(names[before[j - 1]] == named@[before[j - 1]].0@);
            }
            crate::swap::swap_elements(&mut order, j, j - 1);
            j -= 1;
        }
        proof {
            let tail = before.skip(j as int);
            let head = before.take(j as int);
            lemma_inserted_before_tail(names, before, k as int, j as int);
            if j > 0 {
                assert(names[k as int] == named@[k as int].0@);
                assert(names[before[j - 1]] == named@[before[j - 1]].0@);
                assert(head.last() == before[j - 1]);
            }
            assert(inserted(names, head, k as int) == head.push(k as int));
            let next = name_order(names, k + 1);
            assert(next == head.push(k as int) + tail);
            assert forall|i: int| 0 <= i < k + 1 implies #[trigger] order@[i] == next[i] by {
                if i < j {
                    assert(next[i] == head[i]);
                } else if i == j {
                } else {
                    assert(next[i] == tail[i - j - 1]);
                }
            }
        }
        k += 1;
    }
    order
}

/// The counts of the districts, in the order of their names, with commas
/// between them, or `None` if one of the districts has no count.
pub fn count_provinces(named: &Vec<(String, Vec<(String, Vec<String>)>)>) -> (line: Option<String>)
    ensures
        match district_counts(in_name_order(named@)) {
            Some(counts) => line is Some && line->0@ == comma_separated(counts),
            None => line is None,
        },
{
    let order = order_by_name(named);
    let ghost districts = in_name_order(named@);
    let mut out: Vec<char> = Vec::new();
    let mut i: usize = 0;
    let ghost mut counts: Seq<nat> = Seq::empty();
    proof {
        assert(districts.take(0) =~= Seq::<Vec<(String, Vec<String>)>>::empty());
    }
    while i < order.len()
        invariant
            i <= order.len(),
            order@.len() == named@.len(),
            districts == in_name_order(named@),
            forall|k: int|
                0 <= k < order@.len() ==> #[trigger] order@[k] == name_order(
                    district_names(named@),
                    named@.len() as int,
                )[k],
            forall|k: int| 0 <= k < order@.len() ==> #[trigger] order@[k] < named@.len(),
            district_counts(districts.take(i as int)) == Some(counts),
            counts.len() == i,
            out@ == comma_separated(counts),
        decreases order.len() - i,
    {
        proof {
            assert(districts.take(i + 1).drop_last() =~= districts.take(i as int));
            assert(districts.take(i + 1).last() == districts[i as int]);
            assert(districts[i as int] == named@[order@[i as int] as int].1);
        }
        let count = match count_groups(&named[order[i]].1) {
            Some(c) => c,
            None => {
                proof {
                    lemma_district_counts_prefix(districts, i + 1);
                }
                return None;
            },
        };
        if i > 0 {
            out.push(',');
        }
        push_decimal(&mut out, count as u64);
        proof {
            let next = counts.push(count as nat);
            assert(next.drop_last() =~= counts);
            if i == 0 {
                assert(counts =~= Seq::<nat>::empty());
                assert(next =~= seq![count as nat]);
                assert(Seq::<char>::empty() + crate::text::decimal(count as nat)
                    =~= crate::text::decimal(count as nat));
            }
            counts = next;
        }
        i += 1;
    }
    proof {
        assert(districts.take(i as int) =~= districts);
    }
    Some(string_of(&out))
}

/// Where the first districts have no counts, all of them have none.
proof fn lemma_district_counts_prefix(districts: Seq<Vec<(String, Vec<String>)>>, i: int)
    requires
        0 <= i <= districts.len(),
        district_counts(districts.take(i)) is None,
    ensures
        district_counts(districts) is None,
    decreases districts.len() - i,
{
    if i < districts.len() {
        assert(districts.take(i + 1).drop_last() =~= districts.take(i));
        lemma_district_counts_prefix(districts, i + 1);
    } else {
        assert(districts.take(i) =~= districts);
    }
}

} // verus!
