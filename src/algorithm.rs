use crate::rules::{
    contains_token, distinct, lemma_set_of_single, domains, all_distinct, intersect, lemma_set_of_contains, set_of, texts,
    union_into, same_set, Allowed, Domain, Rules, WfcVector,
};
use rand::Rng;
use vstd::prelude::*;

verus! {

/// The token that stands where the rules leave no candidate. A position
/// that the rules cannot fill takes this empty token rather than failing the
/// line. No token is permitted next to it, so once one position takes it,
/// narrowing gives it to the positions round it in turn: one dead end can
/// turn the whole line, markers included, into placeholders. The text of a
/// line leaves the placeholders out.
pub open spec fn placeholder() -> Seq<char> {
    Seq::empty()
}

/// The neighbors that an allowed record permits on one side: after the
/// token when `right` holds, before it otherwise.
pub open spec fn side_list(a: Allowed, right: bool) -> Seq<String> {
    if right {
        a.after@
    } else {
        a.before@
    }
}

/// The tokens that the first `k` entries permit on one side of some token of `s`.
pub open spec fn support_upto(rules: Rules, s: Set<Seq<char>>, right: bool, k: int) -> Set<Seq<char>> {
    Set::new(
        |u: Seq<char>|
            exists|j: int|
                0 <= j < k && s.contains(#[trigger] rules.entries@[j].0@) && set_of(
                    side_list(rules.entries@[j].1, right),
                ).contains(u),
    )
}

/// The tokens that the rules permit on one side of some token of `s`.
pub open spec fn support(rules: Rules, s: Set<Seq<char>>, right: bool) -> Set<Seq<char>> {
    support_upto(rules, s, right, rules.entries@.len() as int)
}

/// The domain at `i` cut down to what both of its neighbors permit.
pub open spec fn narrowed(d: Seq<Set<Seq<char>>>, rules: Rules, i: int) -> Set<Seq<char>> {
    let a = if i > 0 {
        d[i].intersect(support(rules, d[i - 1], true))
    } else {
        d[i]
    };
    if i + 1 < d.len() {
        a.intersect(support(rules, d[i + 1], false))
    } else {
        a
    }
}

/// The new domain at `i`: what the neighbors permit, or the placeholder
/// alone where they permit nothing.
pub open spec fn options(d: Seq<Set<Seq<char>>>, rules: Rules, i: int) -> Set<Seq<char>> {
    if narrowed(d, rules, i) == Set::<Seq<char>>::empty() {
        set![placeholder()]
    } else {
        narrowed(d, rules, i)
    }
}

/// Errors of collapsing and flattening.
#[derive(PartialEq, Eq, Debug, Clone, Copy, Structural)]
pub enum WfcError {
    /// The position lies outside the vector.
    OutOfRange,
    /// The domain holds no candidate.
    EmptyDomain,
    /// A domain still holds more than one candidate.
    AmbiguousDomain,
}

impl WfcError {
    /// A short description of the error.
    pub fn message(&self) -> (r: &'static str)
        ensures
            *self == WfcError::OutOfRange ==> r@ == "Index was out of range"@,
            *self == WfcError::EmptyDomain ==> r@ == "Set was empty"@,
            *self == WfcError::AmbiguousDomain ==> r@ == "Set has more than one string!"@,
    {
        match self {
            WfcError::OutOfRange => "Index was out of range",
            WfcError::EmptyDomain => "Set was empty",
            WfcError::AmbiguousDomain => "Set has more than one string!",
        }
    }
}

/// The position to the left of `index`, if any.
pub fn get_left_neighbor(index: usize) -> (r: Option<usize>)
    ensures
        r == (if index > 0 { Some((index - 1) as usize) } else { None::<usize> }),
{
    if index > 0 {
        return Some(index - 1);
    }
    None
}

/// The position to the right of `index` in a vector of `max_length`, if any.
pub fn get_right_neighbor(index: usize, max_length: usize) -> (r: Option<usize>)
    ensures
        r == (if index + 1 < max_length { Some((index + 1) as usize) } else { None::<usize> }),
{
    if max_length > 0 && index < max_length - 1 {
        return Some(index + 1);
    }
    None
}

/// The positions next to `index` in a vector of `max_length`, left first.
pub fn get_valid_neighbors(index: usize, max_length: usize) -> (r: Vec<usize>)
    ensures
        r@ == (if index > 0 { seq![(index - 1) as usize] } else { Seq::<usize>::empty() }) + (if index + 1
            < max_length {
            seq![(index + 1) as usize]
        } else {
            Seq::<usize>::empty()
        }),
{
    let mut result: Vec<usize> = Vec::new();
    if index > 0 {
        result.push(index - 1);
    }
    if max_length > 0 && index < max_length - 1 {
        result.push(index + 1);
    }
    proof {
        assert(result@ =~= (if index > 0 { seq![(index - 1) as usize] } else { Seq::<usize>::empty() }) + (
        if index + 1 < max_length {
            seq![(index + 1) as usize]
        } else {
            Seq::<usize>::empty()
        }));
    }
    result
}

/// Whether every domain holds exactly one candidate.
pub fn is_collapsed(wfc_vector: &WfcVector) -> (r: bool)
    ensures
        r == (forall|i: int| 0 <= i < wfc_vector@.len() ==> #[trigger] wfc_vector@[i]@.len() == 1),
{
    let mut i: usize = 0;
    while i < wfc_vector.len()
        invariant
            0 <= i <= wfc_vector@.len(),
            forall|j: int| 0 <= j < i ==> #[trigger] wfc_vector@[j]@.len() == 1,
        decreases wfc_vector@.len() - i,
    {
        if wfc_vector[i].len() != 1 {
            return false;
        }
        i = i + 1;
    }
    true
}

/// The tokens that the rules permit on one side of some token of `neighbor`.
fn support_of(rules: &Rules, neighbor: &Domain, right: bool) -> (r: Domain)
    ensures
        distinct(r@),
        set_of(r@) == support(*rules, set_of(neighbor@), right),
{
    let mut r: Domain = Vec::new();
    let mut k: usize = 0;
    proof {
        assert(set_of(r@) =~= support_upto(*rules, set_of(neighbor@), right, 0));
    }
    while k < rules.entries.len()
        invariant
            0 <= k <= rules.entries@.len(),
            distinct(r@),
            set_of(r@) == support_upto(*rules, set_of(neighbor@), right, k as int),
        decreases rules.entries@.len() - k,
    {
        let ghost before_r = set_of(r@);
        if contains_token(neighbor, &rules.entries[k].0) {
            if right {
                union_into(&mut r, &rules.entries[k].1.after);
            } else {
                union_into(&mut r, &rules.entries[k].1.before);
            }
        }
        proof {
            let s = set_of(neighbor@);
            let e = rules.entries@[k as int];
            assert forall|u: Seq<char>|
                set_of(r@).contains(u) <==> support_upto(*rules, s, right, k + 1).contains(u) by {
                if support_upto(*rules, s, right, k + 1).contains(u) {
                    let j = choose|j: int|
                        0 <= j < k + 1 && s.contains(#[trigger] rules.entries@[j].0@) && set_of(
                            side_list(rules.entries@[j].1, right),
                        ).contains(u);
                    if j < k {
                        assert(support_upto(*rules, s, right, k as int).contains(u));
                    }
                }
                if before_r.contains(u) {
                    let j = choose|j: int|
                        0 <= j < k && s.contains(#[trigger] rules.entries@[j].0@) && set_of(
                            side_list(rules.entries@[j].1, right),
                        ).contains(u);
                    assert(0 <= j < k + 1);
                }
                if set_of(r@).contains(u) && !before_r.contains(u) {
                    assert(s.contains(rules.entries@[k as int].0@));
                }
            }
            assert(set_of(r@) =~= support_upto(*rules, s, right, k + 1));
        }
        k = k + 1;
    }
    r
}

/// The candidates left at `index` once its neighbors are taken into account;
/// the placeholder alone where none is left.
pub fn get_valid_options_from_neighbors(wfc_vector: &WfcVector, rules: &Rules, index: usize) -> (r: Domain)
    requires
        index < wfc_vector@.len(),
    ensures
        distinct(r@),
        set_of(r@) == options(domains(wfc_vector@), *rules, index as int),
{
    let ghost d = domains(wfc_vector@);
    let mut result = intersect(&wfc_vector[index], &wfc_vector[index]);
    proof {
        assert(set_of(result@) =~= d[index as int]);
    }
    if let Some(before) = get_left_neighbor(index) {
        let sum = support_of(rules, &wfc_vector[before], true);
        result = intersect(&result, &sum);
    }
    if let Some(after) = get_right_neighbor(index, wfc_vector.len()) {
        let sum = support_of(rules, &wfc_vector[after], false);
        result = intersect(&result, &sum);
    }
    proof {
        assert(set_of(result@) =~= narrowed(d, *rules, index as int));
    }
    if result.len() == 0 {
        result.push(String::new());
        proof {
            assert(result@[0]@ == placeholder());
            lemma_set_of_single(result@);
            assert(narrowed(d, *rules, index as int) =~= Set::<Seq<char>>::empty());
        }
    } else {
        proof {
            assert(texts(result@)[0] == result@[0]@);
            assert(set_of(result@).contains(result@[0]@));
        }
    }
    result
}


/// The single candidate of each domain, in order.
pub fn flatten_wfc_vector(wfc_vector: WfcVector) -> (r: Result<Vec<String>, WfcError>)
    ensures
        r.is_err() <==> exists|i: int| 0 <= i < wfc_vector@.len() && #[trigger] wfc_vector@[i]@.len() != 1,
        r.is_err() ==> r == Err::<Vec<String>, WfcError>(WfcError::AmbiguousDomain),
        r.is_ok() ==> r.unwrap()@.len() == wfc_vector@.len() && forall|i: int|
            0 <= i < wfc_vector@.len() ==> #[trigger] r.unwrap()@[i] == wfc_vector@[i]@[0],
{
    let mut result: Vec<String> = Vec::new();
    let mut i: usize = 0;
    while i < wfc_vector.len()
        invariant
            0 <= i <= wfc_vector@.len(),
            result@.len() == i,
            forall|j: int| 0 <= j < i ==> #[trigger] wfc_vector@[j]@.len() == 1,
            forall|j: int| 0 <= j < i ==> #[trigger] result@[j] == wfc_vector@[j]@[0],
        decreases wfc_vector@.len() - i,
    {
        if wfc_vector[i].len() != 1 {
            return Err(WfcError::AmbiguousDomain);
        }
        result.push(wfc_vector[i][0].clone());
        i = i + 1;
    }
    Ok(result)
}

/// Replaces the domain at `index` with its candidate at `pick`, counted
/// round the domain, and returns that candidate.
pub fn collapse_with(wfc_vector: &mut WfcVector, index: usize, pick: usize) -> (r: Result<String, WfcError>)
    ensures
        index >= old(wfc_vector)@.len() ==> r == Err::<String, WfcError>(WfcError::OutOfRange),
        index < old(wfc_vector)@.len() && old(wfc_vector)@[index as int]@.len() == 0 ==> r == Err::<
            String,
            WfcError,
        >(WfcError::EmptyDomain),
        r.is_err() ==> final(wfc_vector)@ == old(wfc_vector)@,
        index < old(wfc_vector)@.len() && old(wfc_vector)@[index as int]@.len() > 0 ==> r.is_ok(),
        r.is_ok() ==> {
            let d = old(wfc_vector)@[index as int]@;
            &&& r.unwrap() == d[pick as int % d.len() as int]
            &&& final(wfc_vector)@.len() == old(wfc_vector)@.len()
            &&& final(wfc_vector)@[index as int]@ == seq![r.unwrap()]
            &&& forall|j: int|
                0 <= j < old(wfc_vector)@.len() && j != index ==> #[trigger] final(wfc_vector)@[j] == old(
                    wfc_vector,
                )@[j]
        },
{
    if index >= wfc_vector.len() {
        return Err(WfcError::OutOfRange);
    }
    let n = wfc_vector[index].len();
    if n == 0 {
        return Err(WfcError::EmptyDomain);
    }
    let value = wfc_vector[index][pick % n].clone();
    wfc_vector.set(index, vec![value.clone()]);
    proof {
        assert(final(wfc_vector)@[index as int]@ =~= seq![value]);
    }
    Ok(value)
}

/// A number drawn from the thread's random generator.
/// Relies on rand's `Rng::gen` for `usize`, of which nothing is promised.
#[verifier::external_body]
fn random_pick() -> usize {
    rand::thread_rng().gen::<usize>()
}

/// Replaces the domain at `index` with one of its candidates, drawn at
/// random, and returns that candidate.
pub fn collapse_at(wfc_vector: &mut WfcVector, index: usize) -> (r: Result<String, WfcError>)
    ensures
        index >= old(wfc_vector)@.len() ==> r == Err::<String, WfcError>(WfcError::OutOfRange),
        index < old(wfc_vector)@.len() && old(wfc_vector)@[index as int]@.len() == 0 ==> r == Err::<
            String,
            WfcError,
        >(WfcError::EmptyDomain),
        r.is_err() ==> final(wfc_vector)@ == old(wfc_vector)@,
        index < old(wfc_vector)@.len() && old(wfc_vector)@[index as int]@.len() > 0 ==> r.is_ok(),
        r.is_ok() ==> {
            &&& set_of(old(wfc_vector)@[index as int]@).contains(r.unwrap()@)
            &&& final(wfc_vector)@[index as int]@.len() == 1
            &&& domains(final(wfc_vector)@) == domains(old(wfc_vector)@).update(index as int, set![r.unwrap()@])
            &&& forall|j: int|
                0 <= j < old(wfc_vector)@.len() && j != index ==> #[trigger] final(wfc_vector)@[j] == old(
                    wfc_vector,
                )@[j]
        },
{
    let pick = random_pick();
    let r = collapse_with(wfc_vector, index, pick);
    proof {
        if r.is_ok() {
            let d = old(wfc_vector)@[index as int]@;
            let k = pick as int % d.len() as int;
            lemma_set_of_contains(d, d[k]@);
            lemma_set_of_single(final(wfc_vector)@[index as int]@);
            assert(domains(final(wfc_vector)@) =~= domains(old(wfc_vector)@).update(index as int, set![r.unwrap()@]));
        }
    }
    r
}


/// The domain at `j` is what its neighbors leave of it.
pub open spec fn stable(d: Seq<Set<Seq<char>>>, rules: Rules, j: int) -> bool {
    d[j] == options(d, rules, j)
}

/// Positions `j` and `k` are next to each other.
pub open spec fn near(j: int, k: int) -> bool {
    j + 1 == k || j == k + 1
}

/// Position `j` is next to a position of the work list.
pub open spec fn covered(stack: Seq<usize>, j: int) -> bool {
    exists|k: int| 0 <= k < stack.len() && near(j, #[trigger] stack[k] as int)
}

/// A domain that only lost candidates, or became the placeholder alone.
pub open spec fn shrinks(before: Seq<String>, after: Seq<String>) -> bool {
    set_of(after).subset_of(set_of(before)) || set_of(after) == set![placeholder()]
}

/// How far a domain is from being settled: its size, and two more unless
/// it is the placeholder alone.
pub open spec fn weight(v: Seq<String>) -> nat {
    v.len() + if set_of(v) == set![placeholder()] {
        0nat
    } else {
        2nat
    }
}

/// The sum of the weights of all domains.
pub open spec fn total(w: Seq<Domain>) -> nat
    decreases w.len(),
{
    if w.len() == 0 {
        0
    } else {
        total(w.drop_last()) + weight(w.last()@)
    }
}

proof fn lemma_some_member(s: Set<Seq<char>>)
    requires
        s != Set::<Seq<char>>::empty(),
    ensures
        exists|t: Seq<char>| s.contains(t),
{
    if !(exists|t: Seq<char>| s.contains(t)) {
        assert(s =~= Set::<Seq<char>>::empty());
    }
}

proof fn lemma_total_update(w: Seq<Domain>, i: int, v: Domain)
    requires
        0 <= i < w.len(),
    ensures
        total(w.update(i, v)) == total(w) - weight(w[i]@) + weight(v@),
    decreases w.len(),
{
    let u = w.update(i, v);
    if i == w.len() - 1 {
        assert(u.drop_last() =~= w.drop_last());
    } else {
        assert(u.drop_last() =~= w.drop_last().update(i, v));
        lemma_total_update(w.drop_last(), i, v);
    }
}

proof fn lemma_distinct_len(v: Seq<String>)
    requires
        distinct(v),
    ensures
        set_of(v).len() == v.len(),
        set_of(v).finite(),
{
    texts(v).unique_seq_to_set();
    vstd::seq_lib::seq_to_set_is_finite(texts(v));
}

/// A new domain that shrinks the old one weighs no more, and less where its
/// candidates differ.
proof fn lemma_weight_drop(before: Seq<String>, after: Seq<String>)
    requires
        distinct(before),
        distinct(after),
        shrinks(before, after),
        set_of(after) != Set::<Seq<char>>::empty(),
    ensures
        weight(after) <= weight(before),
        set_of(after) != set_of(before) ==> weight(after) < weight(before),
        set_of(after) == set_of(before) ==> weight(after) == weight(before),
        before.len() > 0 ==> 1 <= after.len() <= before.len(),
        after.len() >= 1,
{
    lemma_distinct_len(before);
    lemma_distinct_len(after);
    let ph = set![placeholder()];
    if set_of(after).len() == 0 {
        set_of(after).lemma_len0_is_empty();
    }
    if set_of(after) == ph {
        assert(ph.len() == 1);
    } else {
        vstd::set_lib::lemma_len_subset(set_of(after), set_of(before));
        if set_of(before) == ph {
            lemma_some_member(set_of(after));
            let t = choose|t: Seq<char>| set_of(after).contains(t);
            assert(set_of(after) =~= ph);
        }
        if set_of(after) != set_of(before) {
            if !(exists|e: Seq<char>| set_of(before).contains(e) != set_of(after).contains(e)) {
                assert(set_of(before) =~= set_of(after));
            }
            let e = choose|e: Seq<char>| set_of(before).contains(e) != set_of(after).contains(e);
            set_of(after).lemma_subset_not_in_lt(set_of(before), e);
        }
    }
}

proof fn lemma_shrinks_chain(a: Seq<String>, b: Seq<String>, c: Seq<String>)
    requires
        shrinks(a, b),
        shrinks(b, c),
    ensures
        shrinks(a, c),
{
    if set_of(c) == Set::<Seq<char>>::empty() {
        assert(set_of(c).subset_of(set_of(a)));
    } else if set_of(b) == set![placeholder()] && set_of(c) != set![placeholder()] {
        lemma_some_member(set_of(c));
        let t = choose|t: Seq<char>| set_of(c).contains(t);
        assert(set_of(c) =~= set![placeholder()]);
    }
}

/// A domain never grows in a run: where a step leaves it with some of its
/// candidates, or with the placeholder alone, a domain that had a candidate
/// keeps at least one and has no more than before.
pub proof fn lemma_domain_size_never_grows(before: Seq<String>, after: Seq<String>)
    requires
        distinct(before),
        distinct(after),
        shrinks(before, after),
        set_of(after) != Set::<Seq<char>>::empty(),
    ensures
        before.len() > 0 ==> 1 <= after.len() <= before.len(),
{
    lemma_weight_drop(before, after);
}

proof fn lemma_options_shape(d: Seq<Set<Seq<char>>>, rules: Rules, n: int)
    requires
        0 <= n < d.len(),
    ensures
        options(d, rules, n).subset_of(d[n]) || options(d, rules, n) == set![placeholder()],
        options(d, rules, n) != Set::<Seq<char>>::empty(),
{
    if options(d, rules, n) == Set::<Seq<char>>::empty() {
        assert(set![placeholder()].contains(placeholder()));
    }
}

proof fn lemma_options_settle(d: Seq<Set<Seq<char>>>, rules: Rules, n: int)
    requires
        0 <= n < d.len(),
    ensures
        stable(d.update(n, options(d, rules, n)), rules, n),
{
    let o = options(d, rules, n);
    let d1 = d.update(n, o);
    assert(d1[n] == o);
    if n > 0 {
        assert(d1[n - 1] == d[n - 1]);
    }
    if n + 1 < d.len() {
        assert(d1[n + 1] == d[n + 1]);
    }
    if narrowed(d, rules, n) == Set::<Seq<char>>::empty() {
        if narrowed(d1, rules, n) != Set::<Seq<char>>::empty() {
            assert(narrowed(d1, rules, n).subset_of(set![placeholder()]));
            lemma_some_member(narrowed(d1, rules, n));
            let t = choose|t: Seq<char>| narrowed(d1, rules, n).contains(t);
            assert(t == placeholder());
            assert(narrowed(d1, rules, n) =~= set![placeholder()]);
        }
    } else {
        assert(narrowed(d1, rules, n) =~= narrowed(d, rules, n));
    }
}

/// Writing the settled domain at `n` keeps every position settled or next to
/// the work list, but for `skip`.
proof fn lemma_update_keeps_cover(
    d0: Seq<Set<Seq<char>>>,
    d1: Seq<Set<Seq<char>>>,
    rules: Rules,
    n: int,
    s0: Seq<usize>,
    s1: Seq<usize>,
    skip: int,
)
    requires
        0 <= n < d0.len(),
        d1 == d0.update(n, options(d0, rules, n)),
        d1[n] != d0[n] ==> exists|k: int| 0 <= k < s1.len() && s1[k] == n,
        s0.len() <= s1.len(),
        forall|k: int| 0 <= k < s0.len() ==> s1[k] == s0[k],
        forall|j: int| 0 <= j < d0.len() ==> stable(d0, rules, j) || covered(s0, j) || j == n || j == skip,
    ensures
        forall|j: int| 0 <= j < d1.len() ==> stable(d1, rules, j) || covered(s1, j) || j == skip,
{
    assert forall|j: int| 0 <= j < d1.len() implies stable(d1, rules, j) || covered(s1, j) || j == skip by {
        if j == n {
            lemma_options_settle(d0, rules, n);
        } else if near(j, n) && d1[n] != d0[n] {
            let k = choose|k: int| 0 <= k < s1.len() && s1[k] == n;
            assert(near(j, s1[k] as int));
        } else {
            if near(j, n) {
                assert(d1 =~= d0);
            } else {
                assert(d1[j] == d0[j]);
                if j > 0 {
                    assert(d1[j - 1] == d0[j - 1]);
                }
                if j + 1 < d0.len() {
                    assert(d1[j + 1] == d0[j + 1]);
                }
                assert(options(d1, rules, j) == options(d0, rules, j));
            }
            if covered(s0, j) {
                let k = choose|k: int| 0 <= k < s0.len() && near(j, #[trigger] s0[k] as int);
                assert(near(j, s1[k] as int));
            }
        }
    }
}

/// Where every domain is what its neighbors leave of it, every candidate of a
/// domain other than the placeholder alone is permitted after some candidate
/// of the domain on its left, and before some candidate of the domain on its
/// right.
pub proof fn lemma_closure(d: Seq<Set<Seq<char>>>, rules: Rules)
    requires
        forall|j: int| 0 <= j < d.len() ==> stable(d, rules, j),
    ensures
        forall|j: int, t: Seq<char>|
            0 < j < d.len() && #[trigger] d[j].contains(t) && d[j] != set![placeholder()] ==> exists|k: int|
                0 <= k < rules.entries@.len() && d[j - 1].contains(#[trigger] rules.entries@[k].0@) && set_of(
                    rules.entries@[k].1.after@,
                ).contains(t),
        forall|j: int, t: Seq<char>|
            0 <= j < d.len() - 1 && #[trigger] d[j].contains(t) && d[j] != set![placeholder()] ==> exists|k: int|
                0 <= k < rules.entries@.len() && d[j + 1].contains(#[trigger] rules.entries@[k].0@) && set_of(
                    rules.entries@[k].1.before@,
                ).contains(t),
{
    assert forall|j: int, t: Seq<char>|
        0 < j < d.len() && #[trigger] d[j].contains(t) && d[j] != set![placeholder()] implies exists|k: int|
            0 <= k < rules.entries@.len() && d[j - 1].contains(#[trigger] rules.entries@[k].0@) && set_of(
                rules.entries@[k].1.after@,
            ).contains(t) by {
        assert(stable(d, rules, j));
        assert(narrowed(d, rules, j).contains(t));
        assert(support(rules, d[j - 1], true).contains(t));
    }
    assert forall|j: int, t: Seq<char>|
        0 <= j < d.len() - 1 && #[trigger] d[j].contains(t) && d[j] != set![placeholder()] implies exists|k: int|
            0 <= k < rules.entries@.len() && d[j + 1].contains(#[trigger] rules.entries@[k].0@) && set_of(
                rules.entries@[k].1.before@,
            ).contains(t) by {
        assert(stable(d, rules, j));
        assert(narrowed(d, rules, j).contains(t));
        assert(support(rules, d[j + 1], false).contains(t));
    }
}

/// Each domain of `w` lies within the domain of `d` at the same position.
pub open spec fn below(w: Seq<Set<Seq<char>>>, d: Seq<Set<Seq<char>>>) -> bool {
    w.len() == d.len() && forall|j: int| 0 <= j < w.len() ==> #[trigger] w[j].subset_of(d[j])
}

/// Every candidate of `w` is permitted by the domains next to it.
pub open spec fn closed(w: Seq<Set<Seq<char>>>, rules: Rules) -> bool {
    forall|j: int| 0 <= j < w.len() ==> #[trigger] w[j].subset_of(narrowed(w, rules, j))
}

/// The vector of singletons of a line of tokens.
pub open spec fn line_sets(l: Seq<Seq<char>>) -> Seq<Set<Seq<char>>> {
    Seq::new(l.len(), |j: int| set![l[j]])
}

/// The line `l` is closed, lies within `d`, and holds every closed vector
/// that lies within `d`: it is the only line that the rules leave in `d`.
pub open spec fn sole_line(d: Seq<Set<Seq<char>>>, rules: Rules, l: Seq<Seq<char>>) -> bool {
    &&& closed(line_sets(l), rules)
    &&& below(line_sets(l), d)
    &&& forall|w: Seq<Set<Seq<char>>>| #[trigger] closed(w, rules) && below(w, d) ==> below(w, line_sets(l))
}

proof fn lemma_support_monotone(rules: Rules, s1: Set<Seq<char>>, s2: Set<Seq<char>>, right: bool)
    requires
        s1.subset_of(s2),
    ensures
        support(rules, s1, right).subset_of(support(rules, s2, right)),
{
    assert forall|u: Seq<char>| support(rules, s1, right).contains(u) implies support(rules, s2, right).contains(u) by {
        let j = choose|j: int|
            0 <= j < rules.entries@.len() && s1.contains(#[trigger] rules.entries@[j].0@) && set_of(
                side_list(rules.entries@[j].1, right),
            ).contains(u);
        assert(s2.contains(rules.entries@[j].0@));
    }
}

proof fn lemma_narrowed_monotone(w: Seq<Set<Seq<char>>>, d: Seq<Set<Seq<char>>>, rules: Rules, j: int)
    requires
        below(w, d),
        0 <= j < w.len(),
    ensures
        narrowed(w, rules, j).subset_of(narrowed(d, rules, j)),
{
    assert(w[j].subset_of(d[j]));
    if j > 0 {
        assert(w[j - 1].subset_of(d[j - 1]));
        lemma_support_monotone(rules, w[j - 1], d[j - 1], true);
    }
    if j + 1 < w.len() {
        assert(w[j + 1].subset_of(d[j + 1]));
        lemma_support_monotone(rules, w[j + 1], d[j + 1], false);
    }
}

/// Settling one domain keeps every closed vector that lay within the old
/// domains within the new ones.
proof fn lemma_update_keeps_closed(d0: Seq<Set<Seq<char>>>, rules: Rules, n: int)
    requires
        0 <= n < d0.len(),
    ensures
        forall|w: Seq<Set<Seq<char>>>| #[trigger] closed(w, rules) && below(w, d0) ==> below(
            w,
            d0.update(n, options(d0, rules, n)),
        ),
{
    let d1 = d0.update(n, options(d0, rules, n));
    assert forall|w: Seq<Set<Seq<char>>>| #[trigger] closed(w, rules) && below(w, d0) implies below(w, d1) by {
        assert forall|j: int| 0 <= j < w.len() implies #[trigger] w[j].subset_of(d1[j]) by {
            assert(w[j].subset_of(d0[j]));
            if j == n {
                assert(w[n].subset_of(narrowed(w, rules, n)));
                lemma_narrowed_monotone(w, d0, rules, n);
            }
        }
    }
}

/// Whether the work list holds `n`.
fn stack_contains(stack: &Vec<usize>, n: usize) -> (r: bool)
    ensures
        r == exists|k: int| 0 <= k < stack@.len() && stack@[k] == n,
{
    let mut i: usize = 0;
    while i < stack.len()
        invariant
            0 <= i <= stack@.len(),
            forall|k: int| 0 <= k < i ==> stack@[k] != n,
        decreases stack@.len() - i,
    {
        if stack[i] == n {
            return true;
        }
        i = i + 1;
    }
    false
}

/// Settles the domain at `n` and queues it if it changed.
fn update_neighbor(wfc_vector: &mut WfcVector, rules: &Rules, stack: &mut Vec<usize>, n: usize)
    requires
        n < old(wfc_vector)@.len(),
        all_distinct(old(wfc_vector)@),
    ensures
        final(wfc_vector)@.len() == old(wfc_vector)@.len(),
        all_distinct(final(wfc_vector)@),
        domains(final(wfc_vector)@) == domains(old(wfc_vector)@).update(
            n as int,
            options(domains(old(wfc_vector)@), *rules, n as int),
        ),
        forall|j: int| 0 <= j < old(wfc_vector)@.len() && j != n ==> #[trigger] final(wfc_vector)@[j] == old(
            wfc_vector,
        )@[j],
        shrinks(old(wfc_vector)@[n as int]@, final(wfc_vector)@[n as int]@),
        final(wfc_vector)@[n as int]@.len() > 0,
        set_of(final(wfc_vector)@[n as int]@) != Set::<Seq<char>>::empty(),
        old(wfc_vector)@[n as int]@.len() > 0 ==> final(wfc_vector)@[n as int]@.len() <= old(wfc_vector)@[n as int]@.len(),
        final(stack)@ == old(stack)@ || final(stack)@ == old(stack)@.push(n),
        domains(final(wfc_vector)@)[n as int] != domains(old(wfc_vector)@)[n as int] ==> exists|k: int|
            0 <= k < final(stack)@.len() && final(stack)@[k] == n,
        total(final(wfc_vector)@) <= total(old(wfc_vector)@),
        final(stack)@ != old(stack)@ ==> total(final(wfc_vector)@) < total(old(wfc_vector)@),
        forall|w: Seq<Set<Seq<char>>>| #[trigger] closed(w, *rules) && below(w, domains(old(wfc_vector)@)) ==> below(
            w,
            domains(final(wfc_vector)@),
        ),
{
    let ghost d0 = domains(wfc_vector@);
    let new_set = get_valid_options_from_neighbors(wfc_vector, rules, n);
    let changed = !same_set(&wfc_vector[n], &new_set);
    let queued = stack_contains(stack, n);
    if changed && !queued {
        stack.push(n);
        proof {
            assert(stack@[stack@.len() - 1] == n);
        }
    }
    proof {
        lemma_options_shape(d0, *rules, n as int);
        assert(d0[n as int] == set_of(old(wfc_vector)@[n as int]@));
        lemma_weight_drop(old(wfc_vector)@[n as int]@, new_set@);
        lemma_distinct_len(new_set@);
        lemma_total_update(old(wfc_vector)@, n as int, new_set);
    }
    wfc_vector.set(n, new_set);
    proof {
        assert(domains(final(wfc_vector)@) =~= d0.update(n as int, options(d0, *rules, n as int)));
        lemma_update_keeps_closed(d0, *rules, n as int);
    }
}

/// Runs the work list until it is empty: each position taken from it has
/// both of its neighbors settled, and a neighbor that changed is queued.
fn propagate_from(wfc_vector: &mut WfcVector, rules: &Rules, stack: Vec<usize>)
    requires
        all_distinct(old(wfc_vector)@),
        forall|k: int| 0 <= k < stack@.len() ==> #[trigger] stack@[k] < old(wfc_vector)@.len(),
    ensures
        final(wfc_vector)@.len() == old(wfc_vector)@.len(),
        all_distinct(final(wfc_vector)@),
        forall|j: int| 0 <= j < old(wfc_vector)@.len() ==> #[trigger] shrinks(old(wfc_vector)@[j]@, final(wfc_vector)@[j]@),
        forall|j: int| 0 <= j < old(wfc_vector)@.len() && old(wfc_vector)@[j]@.len() > 0
            ==> 1 <= #[trigger] final(wfc_vector)@[j]@.len() <= old(wfc_vector)@[j]@.len(),
        (forall|j: int| 0 <= j < old(wfc_vector)@.len() ==> stable(domains(old(wfc_vector)@), *rules, j)
            || covered(stack@, j)) ==> forall|j: int|
            0 <= j < old(wfc_vector)@.len() ==> #[trigger] stable(domains(final(wfc_vector)@), *rules, j),
        forall|w: Seq<Set<Seq<char>>>| #[trigger] closed(w, *rules) && below(w, domains(old(wfc_vector)@)) ==> below(
            w,
            domains(final(wfc_vector)@),
        ),
{
    let ghost w0 = wfc_vector@;
    let ghost pre = forall|j: int| 0 <= j < w0.len() ==> stable(domains(w0), *rules, j) || covered(stack@, j);
    let mut stack = stack;
    proof {
        assert forall|j: int| 0 <= j < w0.len() implies #[trigger] shrinks(w0[j]@, w0[j]@) by {}
    }
    while stack.len() > 0
        invariant
            wfc_vector@.len() == w0.len(),
            all_distinct(wfc_vector@),
            forall|j: int| 0 <= j < w0.len() ==> #[trigger] shrinks(w0[j]@, wfc_vector@[j]@),
            forall|j: int| 0 <= j < w0.len() && w0[j]@.len() > 0
                ==> 1 <= #[trigger] wfc_vector@[j]@.len() <= w0[j]@.len(),
            forall|k: int| 0 <= k < stack@.len() ==> #[trigger] stack@[k] < w0.len(),
            pre ==> forall|j: int| 0 <= j < w0.len() ==> stable(domains(wfc_vector@), *rules, j) || covered(stack@, j),
            forall|w: Seq<Set<Seq<char>>>| #[trigger] closed(w, *rules) && below(w, domains(w0)) ==> below(
                w,
                domains(wfc_vector@),
            ),
        decreases total(wfc_vector@), stack@.len(),
    {
        let ghost s0 = stack@;
        let ghost wa = wfc_vector@;
        let current = stack.pop().unwrap();
        let ghost s1 = stack@;
        proof {
            assert(s1 =~= s0.drop_last());
            assert(s0[s0.len() - 1] == current);
            assert(current < w0.len());
            if pre {
                assert forall|j: int| 0 <= j < w0.len() implies stable(domains(wa), *rules, j) || covered(s1, j)
                    || near(j, current as int) by {
                    if covered(s0, j) && !stable(domains(wa), *rules, j) {
                        let k = choose|k: int| 0 <= k < s0.len() && near(j, #[trigger] s0[k] as int);
                        if k < s1.len() {
                            assert(near(j, s1[k] as int));
                        }
                    }
                }
            }
        }
        let ghost skip: int = current + 1;
        if current > 0 {
            let ghost wb = wfc_vector@;
            let ghost sb = stack@;
            update_neighbor(wfc_vector, rules, &mut stack, current - 1);
            proof {
                if pre {
                    lemma_update_keeps_cover(domains(wb), domains(wfc_vector@), *rules, current - 1, sb, stack@, skip);
                }
                lemma_shrinks_chain(w0[current - 1]@, wb[current - 1]@, wfc_vector@[current - 1]@);
            }
        } else {
            proof {
                if pre {
                    assert forall|j: int| 0 <= j < w0.len() implies stable(domains(wfc_vector@), *rules, j)
                        || covered(stack@, j) || j == skip by {}
                }
            }
        }
        if current < wfc_vector.len() - 1 {
            let ghost wb = wfc_vector@;
            let ghost sb = stack@;
            update_neighbor(wfc_vector, rules, &mut stack, current + 1);
            proof {
                if pre {
                    lemma_update_keeps_cover(domains(wb), domains(wfc_vector@), *rules, current + 1, sb, stack@, -1);
                }
                lemma_shrinks_chain(w0[current + 1]@, wb[current + 1]@, wfc_vector@[current + 1]@);
            }
        }
    }
    proof {
        if pre {
            assert forall|j: int| 0 <= j < w0.len() implies stable(domains(wfc_vector@), *rules, j) by {
                assert(!covered(stack@, j));
            }
        }
    }
}

/// Narrows the domains round `last_collapse_index`, and round each domain
/// that changed in turn, until no domain changes any more. Only candidates
/// that their neighbors do not permit are removed: every closed vector that
/// lay within the old domains lies within the new ones.
pub fn propagate(wfc_vector: &mut WfcVector, rules: &Rules, last_collapse_index: usize)
    requires
        last_collapse_index < old(wfc_vector)@.len(),
        all_distinct(old(wfc_vector)@),
    ensures
        final(wfc_vector)@.len() == old(wfc_vector)@.len(),
        all_distinct(final(wfc_vector)@),
        forall|j: int| 0 <= j < old(wfc_vector)@.len() ==> #[trigger] shrinks(old(wfc_vector)@[j]@, final(wfc_vector)@[j]@),
        forall|j: int| 0 <= j < old(wfc_vector)@.len() && old(wfc_vector)@[j]@.len() > 0
            ==> 1 <= #[trigger] final(wfc_vector)@[j]@.len() <= old(wfc_vector)@[j]@.len(),
        (forall|j: int| 0 <= j < old(wfc_vector)@.len() ==> stable(domains(old(wfc_vector)@), *rules, j)
            || near(j, last_collapse_index as int)) ==> forall|j: int|
            0 <= j < old(wfc_vector)@.len() ==> #[trigger] stable(domains(final(wfc_vector)@), *rules, j),
        forall|w: Seq<Set<Seq<char>>>| #[trigger] closed(w, *rules) && below(w, domains(old(wfc_vector)@)) ==> below(
            w,
            domains(final(wfc_vector)@),
        ),
{
    let stack: Vec<usize> = vec![last_collapse_index];
    proof {
        let w0 = wfc_vector@;
        assert forall|j: int| 0 <= j < w0.len() && near(j, last_collapse_index as int) implies covered(stack@, j) by {
            assert(near(j, stack@[0] as int));
        }
    }
    propagate_from(wfc_vector, rules, stack);
}

/// Narrows every domain of a vector of two or more positions until each is
/// what its neighbors leave of it.
pub fn settle(wfc_vector: &mut WfcVector, rules: &Rules)
    requires
        old(wfc_vector)@.len() >= 2,
        all_distinct(old(wfc_vector)@),
    ensures
        final(wfc_vector)@.len() == old(wfc_vector)@.len(),
        all_distinct(final(wfc_vector)@),
        forall|j: int| 0 <= j < old(wfc_vector)@.len() ==> #[trigger] shrinks(old(wfc_vector)@[j]@, final(wfc_vector)@[j]@),
        forall|j: int| 0 <= j < old(wfc_vector)@.len() && old(wfc_vector)@[j]@.len() > 0
            ==> 1 <= #[trigger] final(wfc_vector)@[j]@.len() <= old(wfc_vector)@[j]@.len(),
        forall|j: int| 0 <= j < old(wfc_vector)@.len() ==> #[trigger] stable(domains(final(wfc_vector)@), *rules, j),
        forall|w: Seq<Set<Seq<char>>>| #[trigger] closed(w, *rules) && below(w, domains(old(wfc_vector)@)) ==> below(
            w,
            domains(final(wfc_vector)@),
        ),
{
    let n = wfc_vector.len();
    let mut stack: Vec<usize> = Vec::new();
    let mut i: usize = 0;
    while i < n
        invariant
            0 <= i <= n,
            n == wfc_vector@.len(),
            stack@.len() == i,
            forall|k: int| 0 <= k < i ==> #[trigger] stack@[k] == k,
        decreases n - i,
    {
        stack.push(i);
        i = i + 1;
    }
    proof {
        assert forall|j: int| 0 <= j < n implies covered(stack@, j) by {
            if j + 1 < n {
                assert(near(j, stack@[j + 1] as int));
            } else {
                assert(near(j, stack@[j - 1] as int));
            }
        }
    }
    propagate_from(wfc_vector, rules, stack);
}


/// What a run promises of the line it returns.
pub open spec fn run_result(d0: Seq<Domain>, rules: Rules, r: Result<Vec<String>, WfcError>) -> bool {
    &&& (forall|j: int| 0 <= j < d0.len() ==> #[trigger] d0[j]@.len() > 0) ==> r.is_ok()
    &&& d0.len() >= 2 ==> r.is_ok()
    &&& r.is_err() ==> r == Err::<Vec<String>, WfcError>(WfcError::EmptyDomain) && exists|j: int|
        0 <= j < d0.len() && #[trigger] d0[j]@.len() == 0
    &&& r.is_ok() ==> r.unwrap()@.len() == d0.len()
    &&& r.is_ok() ==> forall|j: int|
        0 <= j < d0.len() ==> set_of(d0[j]@).contains(#[trigger] r.unwrap()@[j]@) || r.unwrap()@[j]@
            == placeholder()
    &&& r.is_ok() ==> forall|j: int|
        0 < j < d0.len() && #[trigger] r.unwrap()@[j]@ != placeholder() ==> exists|k: int|
            0 <= k < rules.entries@.len() && #[trigger] rules.entries@[k].0@ == r.unwrap()@[j - 1]@ && set_of(
                rules.entries@[k].1.after@,
            ).contains(r.unwrap()@[j]@)
    &&& r.is_ok() ==> forall|j: int|
        0 <= j < d0.len() - 1 && #[trigger] r.unwrap()@[j]@ != placeholder() ==> exists|k: int|
            0 <= k < rules.entries@.len() && #[trigger] rules.entries@[k].0@ == r.unwrap()@[j + 1]@ && set_of(
                rules.entries@[k].1.before@,
            ).contains(r.unwrap()@[j]@)
    &&& forall|l: Seq<Seq<char>>|
        d0.len() >= 2 && #[trigger] sole_line(domains(d0), rules, l) ==> r.is_ok() && texts(r.unwrap()@) == l
}

/// Collapsing a settled position to one of its candidates leaves every
/// position settled but its neighbors.
proof fn lemma_collapse_keeps_stable(d: Seq<Set<Seq<char>>>, rules: Rules, i: int, t: Seq<char>)
    requires
        0 <= i < d.len(),
        forall|j: int| 0 <= j < d.len() ==> #[trigger] stable(d, rules, j),
        d[i].contains(t),
        d[i] != set![placeholder()],
    ensures
        forall|j: int|
            0 <= j < d.len() ==> #[trigger] stable(d.update(i, set![t]), rules, j) || near(j, i),
{
    let d1 = d.update(i, set![t]);
    assert(stable(d, rules, i));
    assert forall|j: int| 0 <= j < d.len() implies #[trigger] stable(d1, rules, j) || near(j, i) by {
        assert(stable(d, rules, j));
        if j == i {
            if i > 0 {
                assert(d1[i - 1] == d[i - 1]);
            }
            if i + 1 < d.len() {
                assert(d1[i + 1] == d[i + 1]);
            }
            assert(narrowed(d, rules, i).contains(t));
            assert(narrowed(d1, rules, i) =~= set![t]);
            assert(set![t].contains(t));
            assert(options(d1, rules, i) == set![t]);
        } else if !near(j, i) {
            assert(d1[j] == d[j]);
            if j > 0 {
                assert(d1[j - 1] == d[j - 1]);
            }
            if j + 1 < d.len() {
                assert(d1[j + 1] == d[j + 1]);
            }
            assert(options(d1, rules, j) == options(d, rules, j));
        }
    }
}

/// After the first narrowing, a vector that holds a sole line is that line.
proof fn lemma_settled_is_sole_line(d0: Seq<Set<Seq<char>>>, d1: Seq<Set<Seq<char>>>, rules: Rules, l: Seq<Seq<char>>)
    requires
        sole_line(d0, rules, l),
        d1.len() == d0.len(),
        forall|j: int| 0 <= j < d1.len() ==> #[trigger] stable(d1, rules, j),
        forall|j: int| 0 <= j < d1.len() ==> #[trigger] d1[j].subset_of(d0[j]) || d1[j] == set![placeholder()],
        below(line_sets(l), d1),
    ensures
        d1 == line_sets(l),
{
    let ls = line_sets(l);
    assert(closed(ls, rules));
    assert forall|j: int| 0 <= j < d1.len() implies #[trigger] d1[j].subset_of(narrowed(d1, rules, j)) && d1[j].subset_of(
        d0[j],
    ) by {
        assert(stable(d1, rules, j));
        assert(ls[j].subset_of(narrowed(ls, rules, j)));
        assert(ls[j].contains(l[j]));
        lemma_narrowed_monotone(ls, d1, rules, j);
        assert(narrowed(d1, rules, j).contains(l[j]));
        assert(ls[j].subset_of(d0[j]));
        if !d1[j].subset_of(d0[j]) {
            assert(d1[j] == set![placeholder()]);
            assert(d1[j].contains(l[j]));
        }
    }
    assert(closed(d1, rules));
    assert forall|j: int| 0 <= j < d1.len() implies #[trigger] d1[j].subset_of(d0[j]) by {
        assert(d1[j].subset_of(narrowed(d1, rules, j)) && d1[j].subset_of(d0[j]));
    }
    assert(below(d1, d0));
    assert(below(d1, ls));
    assert forall|j: int| 0 <= j < d1.len() implies #[trigger] d1[j] == ls[j] by {
        assert(d1[j].subset_of(ls[j]));
        assert(ls[j].subset_of(d1[j]));
        assert(d1[j] =~= ls[j]);
    }
    assert(d1 =~= ls);
}

/// Settles the domains of a vector of two or more positions, then collapses
/// it from left to right: each position that still holds other than one
/// candidate takes the candidate at its pick, and the domains round it are
/// narrowed. The candidates left are returned in order.
///
/// Where a position is left with no candidate, it takes the placeholder;
/// since the placeholder permits no neighbor, the domains round it then take
/// the placeholder too, and the whole line may come out as placeholders,
/// the markers included. The line is not retried.
pub fn iterate_with(wfc_vector: WfcVector, rules: &Rules, picks: &Vec<usize>) -> (r: Result<Vec<String>, WfcError>)
    requires
        all_distinct(wfc_vector@),
        picks@.len() == wfc_vector@.len(),
    ensures
        run_result(wfc_vector@, *rules, r),
{
    let ghost w0 = wfc_vector@;
    let ghost d0 = domains(w0);
    let mut w = wfc_vector;
    let n = w.len();
    proof {
        assert forall|j: int| 0 <= j < w0.len() implies #[trigger] shrinks(w0[j]@, w@[j]@) by {}
    }
    if n >= 2 {
        settle(&mut w, rules);
        proof {
            assert forall|l: Seq<Seq<char>>| #[trigger] sole_line(d0, *rules, l) implies domains(w@) == line_sets(l) by {
                assert(closed(line_sets(l), *rules) && below(line_sets(l), d0));
                assert forall|j: int| 0 <= j < n implies #[trigger] domains(w@)[j].subset_of(d0[j])
                    || domains(w@)[j] == set![placeholder()] by {
                    assert(shrinks(w0[j]@, w@[j]@));
                }
                lemma_settled_is_sole_line(d0, domains(w@), *rules, l);
            }
        }
    }
    let mut i: usize = 0;
    while i < w.len()
        invariant
            0 <= i <= w@.len(),
            w@.len() == w0.len(),
            n == w0.len(),
            w0 == wfc_vector@,
            d0 == domains(w0),
            picks@.len() == w0.len(),
            all_distinct(w@),
            forall|j: int| 0 <= j < i ==> #[trigger] w@[j]@.len() == 1,
            forall|j: int| 0 <= j < w0.len() ==> #[trigger] shrinks(w0[j]@, w@[j]@),
            forall|j: int| 0 <= j < w0.len() && w0[j]@.len() > 0 ==> 1 <= #[trigger] w@[j]@.len() <= w0[j]@.len(),
            n >= 2 ==> forall|j: int| 0 <= j < n ==> #[trigger] stable(domains(w@), *rules, j),
            n >= 2 ==> forall|l: Seq<Seq<char>>| #[trigger] sole_line(d0, *rules, l) ==> domains(w@) == line_sets(l),
        decreases w0.len() - i,
    {
        if w[i].len() != 1 {
            let ghost wb = w@;
            proof {
                lemma_distinct_len(wb[i as int]@);
                if n >= 2 {
                    assert(stable(domains(wb), *rules, i as int));
                    lemma_options_shape(domains(wb), *rules, i as int);
                    assert forall|l: Seq<Seq<char>>| !#[trigger] sole_line(d0, *rules, l) by {
                        if sole_line(d0, *rules, l) {
                            assert(domains(wb)[i as int] == set![l[i as int]]);
                            assert(set![l[i as int]].len() == 1);
                        }
                    }
                    if wb[i as int]@.len() == 0 {
                        set_of(wb[i as int]@).lemma_len0_is_empty();
                    }
                    assert(domains(wb)[i as int] != set![placeholder()]);
                }
            }
            let picked = collapse_with(&mut w, i, picks[i]);
            match picked {
                Err(e) => {
                    proof {
                        assert(w@[i as int]@.len() == 0);
                        assert(w0[i as int]@.len() == 0);
                        assert(e == WfcError::EmptyDomain);
                    }
                    return Err(WfcError::EmptyDomain);
                },
                Ok(_) => {},
            }
            proof {
                let t = w@[i as int]@[0];
                let d = wb[i as int]@;
                lemma_set_of_single(w@[i as int]@);
                lemma_set_of_contains(d, t@);
                assert(d[picks@[i as int] as int % d.len() as int] == t);
                assert(set![t@].contains(t@));
                assert(shrinks(d, w@[i as int]@));
                lemma_shrinks_chain(w0[i as int]@, d, w@[i as int]@);
                assert forall|j: int| 0 <= j < w0.len() implies #[trigger] shrinks(w0[j]@, w@[j]@) by {
                    if j != i {
                        assert(w@[j] == wb[j]);
                    }
                }
                assert(domains(w@) =~= domains(wb).update(i as int, set![t@]));
                if n >= 2 {
                    lemma_collapse_keeps_stable(domains(wb), *rules, i as int, t@);
                }
            }
            let ghost wc = w@;
            propagate(&mut w, rules, i);
            proof {
                assert forall|j: int| 0 <= j < w0.len() implies #[trigger] shrinks(w0[j]@, w@[j]@) by {
                    assert(shrinks(wc[j]@, w@[j]@));
                    assert(shrinks(w0[j]@, wc[j]@));
                    lemma_shrinks_chain(w0[j]@, wc[j]@, w@[j]@);
                }
            }
        }
        i = i + 1;
    }
    let ghost wf = w@;
    let ghost df = domains(wf);
    let r = flatten_wfc_vector(w);
    proof {
        assert(forall|j: int| 0 <= j < wf.len() ==> #[trigger] wf[j]@.len() == 1);
        assert(r.is_ok());
        let line = r.unwrap()@;
        assert forall|j: int| 0 <= j < w0.len() implies #[trigger] df[j] == set![line[j]@] by {
            assert(wf[j]@.len() == 1);
            lemma_set_of_single(wf[j]@);
            assert(line[j] == wf[j]@[0]);
        }
        assert forall|j: int| 0 <= j < w0.len() implies set_of(w0[j]@).contains(#[trigger] line[j]@)
            || line[j]@ == placeholder() by {
            assert(df[j] == set![line[j]@]);
            assert(df[j].contains(line[j]@));
            assert(shrinks(w0[j]@, wf[j]@));
        }
        if n >= 2 {
            lemma_closure(df, *rules);
            assert forall|j: int|
                0 < j < w0.len() && #[trigger] line[j]@ != placeholder() implies exists|k: int|
                    0 <= k < rules.entries@.len() && #[trigger] rules.entries@[k].0@ == line[j - 1]@ && set_of(
                        rules.entries@[k].1.after@,
                    ).contains(line[j]@) by {
                assert(df[j] == set![line[j]@]);
                assert(df[j - 1] == set![line[j - 1]@]);
                assert(df[j].contains(line[j]@));
                if df[j] == set![placeholder()] {
                    assert(df[j].contains(placeholder()));
                }
            }
            assert forall|j: int|
                0 <= j < w0.len() - 1 && #[trigger] line[j]@ != placeholder() implies exists|k: int|
                    0 <= k < rules.entries@.len() && #[trigger] rules.entries@[k].0@ == line[j + 1]@ && set_of(
                        rules.entries@[k].1.before@,
                    ).contains(line[j]@) by {
                assert(df[j] == set![line[j]@]);
                assert(df[j + 1] == set![line[j + 1]@]);
                assert(df[j].contains(line[j]@));
                if df[j] == set![placeholder()] {
                    assert(df[j].contains(placeholder()));
                }
            }
            assert forall|l: Seq<Seq<char>>| #[trigger] sole_line(d0, *rules, l) implies texts(line) == l by {
                assert(df == line_sets(l));
                assert forall|j: int| 0 <= j < l.len() implies texts(line)[j] == l[j] by {
                    assert(df[j] == set![line[j]@]);
                    assert(line_sets(l)[j] == set![l[j]]);
                    assert(set![l[j]].contains(l[j]));
                }
                assert(texts(line) =~= l);
            }
        }
    }
    r
}

/// As `iterate_with`, each position taking a candidate drawn at random.
pub fn iterate(wfc_vector: WfcVector, rules: &Rules) -> (r: Result<Vec<String>, WfcError>)
    requires
        all_distinct(wfc_vector@),
    ensures
        run_result(wfc_vector@, *rules, r),
{
    let mut picks: Vec<usize> = Vec::new();
    let mut i: usize = 0;
    while i < wfc_vector.len()
        invariant
            0 <= i <= wfc_vector@.len(),
            picks@.len() == i,
        decreases wfc_vector@.len() - i,
    {
        picks.push(random_pick());
        i = i + 1;
    }
    iterate_with(wfc_vector, rules, &picks)
}

} // verus!
