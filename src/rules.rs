use vstd::prelude::*;

verus! {

/// Marks the start of a line.
pub const START: &'static str = "\x02";

/// Marks the end of a line.
pub const END: &'static str = "\x03";

/// A candidate domain: the tokens still possible at one position.
pub type Domain = Vec<String>;

/// The vector of domains that the algorithm works on.
pub type WfcVector = Vec<Domain>;

/// The texts of a list of strings.
pub open spec fn texts(v: Seq<String>) -> Seq<Seq<char>> {
    v.map_values(|s: String| s@)
}

/// The set of texts held by a list of strings.
pub open spec fn set_of(v: Seq<String>) -> Set<Seq<char>> {
    texts(v).to_set()
}

/// A list of strings that holds no text twice.
pub open spec fn distinct(v: Seq<String>) -> bool {
    texts(v).no_duplicates()
}

/// The domains of a vector, as sets of texts.
pub open spec fn domains(w: Seq<Domain>) -> Seq<Set<Seq<char>>> {
    w.map_values(|d: Domain| set_of(d@))
}

/// Every domain of the vector holds no text twice.
pub open spec fn all_distinct(w: Seq<Domain>) -> bool {
    forall|i: int| 0 <= i < w.len() ==> #[trigger] distinct(w[i]@)
}

/// A text is in the set of a list exactly when some entry of the list holds it.
pub proof fn lemma_set_of_contains(v: Seq<String>, t: Seq<char>)
    ensures
        set_of(v).contains(t) <==> exists|i: int| 0 <= i < v.len() && #[trigger] v[i]@ == t,
{
    if set_of(v).contains(t) {
        assert(texts(v).contains(t));
        let i = choose|i: int| 0 <= i < texts(v).len() && texts(v)[i] == t;
        assert(v[i]@ == t);
    }
    if exists|i: int| 0 <= i < v.len() && #[trigger] v[i]@ == t {
        let i = choose|i: int| 0 <= i < v.len() && #[trigger] v[i]@ == t;
        assert(texts(v)[i] == t);
    }
}

/// Taking one more entry of a list adds its text to the set.
pub proof fn lemma_set_of_take(s: Seq<String>, k: int)
    requires
        0 <= k < s.len(),
    ensures
        set_of(s.take(k + 1)) == set_of(s.take(k)).insert(s[k]@),
{
    assert(texts(s.take(k + 1)) =~= texts(s.take(k)).push(s[k]@));
    texts(s.take(k)).lemma_push_to_set_commute(s[k]@);
}

/// A list of one string holds one text.
pub proof fn lemma_set_of_single(v: Seq<String>)
    requires
        v.len() == 1,
    ensures
        set_of(v) == set![v[0]@],
        distinct(v),
{
    assert forall|t: Seq<char>| set_of(v).contains(t) <==> set![v[0]@].contains(t) by {
        lemma_set_of_contains(v, t);
    }
    assert(set_of(v) =~= set![v[0]@]);
}

/// Adds to `acc` every text of `src` that it does not hold yet.
pub fn union_into(acc: &mut Vec<String>, src: &Vec<String>)
    requires
        distinct(old(acc)@),
    ensures
        distinct(final(acc)@),
        set_of(final(acc)@) == set_of(old(acc)@).union(set_of(src@)),
{
    let mut k: usize = 0;
    while k < src.len()
        invariant
            0 <= k <= src@.len(),
            distinct(acc@),
            set_of(acc@) == set_of(old(acc)@).union(set_of(src@.take(k as int))),
        decreases src@.len() - k,
    {
        proof {
            lemma_set_of_take(src@, k as int);
        }
        insert_token(acc, src[k].clone());
        k = k + 1;
        proof {
            assert(set_of(acc@) =~= set_of(old(acc)@).union(set_of(src@.take(k as int))));
        }
    }
    proof {
        assert(src@.take(src@.len() as int) =~= src@);
    }
}

/// The texts that both lists hold, each once.
pub fn intersect(a: &Vec<String>, b: &Vec<String>) -> (r: Vec<String>)
    ensures
        distinct(r@),
        set_of(r@) == set_of(a@).intersect(set_of(b@)),
{
    let mut r: Vec<String> = Vec::new();
    let mut k: usize = 0;
    proof {
        assert(set_of(r@) =~= set_of(a@.take(0)).intersect(set_of(b@)));
    }
    while k < a.len()
        invariant
            0 <= k <= a@.len(),
            distinct(r@),
            set_of(r@) == set_of(a@.take(k as int)).intersect(set_of(b@)),
        decreases a@.len() - k,
    {
        proof {
            lemma_set_of_take(a@, k as int);
        }
        if contains_token(b, &a[k]) {
            insert_token(&mut r, a[k].clone());
        }
        k = k + 1;
        proof {
            assert(set_of(r@) =~= set_of(a@.take(k as int)).intersect(set_of(b@)));
        }
    }
    proof {
        assert(a@.take(a@.len() as int) =~= a@);
    }
    r
}

/// The tokens that may stand immediately before and after a given token.
pub struct Allowed {
    pub before: Vec<String>,
    pub after: Vec<String>,
}

impl Allowed {
    /// Creates a new allowed record.
    pub fn new(before: Vec<String>, after: Vec<String>) -> (r: Self)
        ensures
            r.before@ == before@,
            r.after@ == after@,
    {
        Allowed { before, after }
    }

    /// An allowed record that permits no neighbor.
    pub fn empty() -> (r: Self)
        ensures
            r.before@.len() == 0,
            r.after@.len() == 0,
    {
        Allowed { before: Vec::new(), after: Vec::new() }
    }
}


/// The text of the start marker.
pub open spec fn start_text() -> Seq<char> {
    seq!['\u{2}']
}

/// The text of the end marker.
pub open spec fn end_text() -> Seq<char> {
    seq!['\u{3}']
}

/// A fresh start marker.
pub fn start_token() -> (r: String)
    ensures
        r@ == start_text(),
{
    proof {
        reveal_strlit("\x02");
    }
    "\x02".to_string()
}

/// A fresh end marker.
pub fn end_token() -> (r: String)
    ensures
        r@ == end_text(),
{
    proof {
        reveal_strlit("\x03");
    }
    "\x03".to_string()
}

/// Whether a list of strings holds the given text.
pub fn contains_token(v: &Vec<String>, t: &String) -> (r: bool)
    ensures
        r == set_of(v@).contains(t@),
{
    proof {
        lemma_set_of_contains(v@, t@);
    }
    let mut i: usize = 0;
    while i < v.len()
        invariant
            0 <= i <= v@.len(),
            forall|j: int| 0 <= j < i ==> v@[j]@ != t@,
        decreases v@.len() - i,
    {
        if v[i] == *t {
            assert(texts(v@)[i as int] == t@);
            assert(texts(v@).contains(t@));
            return true;
        }
        i = i + 1;
    }
    false
}

/// Adds a text to a list of strings unless the list already holds it.
pub fn insert_token(v: &mut Vec<String>, t: String)
    requires
        distinct(old(v)@),
    ensures
        distinct(final(v)@),
        set_of(final(v)@) == set_of(old(v)@).insert(t@),
        final(v)@.len() <= old(v)@.len() + 1,
{
    let present = contains_token(v, &t);
    if !present {
        let ghost t_view = t@;
        v.push(t);
        proof {
            assert(texts(final(v)@) =~= texts(old(v)@).push(t_view));
            texts(old(v)@).lemma_push_to_set_commute(t_view);
            assert forall|a: int, b: int|
                0 <= a < b < texts(final(v)@).len() implies texts(final(v)@)[a] != texts(final(v)@)[b] by {
                if b == texts(old(v)@).len() {
                    assert(texts(old(v)@).contains(texts(old(v)@)[a]));
                }
            }
        }
    } else {
        proof {
            assert(set_of(old(v)@).insert(t@) =~= set_of(old(v)@));
        }
    }
}

/// Whether two lists of strings hold the same texts.
pub fn same_set(a: &Vec<String>, b: &Vec<String>) -> (r: bool)
    ensures
        r == (set_of(a@) == set_of(b@)),
{
    let mut i: usize = 0;
    while i < a.len()
        invariant
            0 <= i <= a@.len(),
            forall|j: int| 0 <= j < i ==> set_of(b@).contains(#[trigger] a@[j]@),
        decreases a@.len() - i,
    {
        if !contains_token(b, &a[i]) {
            proof {
                assert(texts(a@)[i as int] == a@[i as int]@);
                assert(set_of(a@).contains(a@[i as int]@));
            }
            return false;
        }
        i = i + 1;
    }
    let mut k: usize = 0;
    while k < b.len()
        invariant
            0 <= k <= b@.len(),
            forall|j: int| 0 <= j < a@.len() ==> set_of(b@).contains(#[trigger] a@[j]@),
            forall|j: int| 0 <= j < k ==> set_of(a@).contains(#[trigger] b@[j]@),
        decreases b@.len() - k,
    {
        if !contains_token(a, &b[k]) {
            proof {
                assert(texts(b@)[k as int] == b@[k as int]@);
                assert(set_of(b@).contains(b@[k as int]@));
            }
            return false;
        }
        k = k + 1;
    }
    proof {
        assert forall|t: Seq<char>| set_of(a@).contains(t) <==> set_of(b@).contains(t) by {
            lemma_set_of_contains(a@, t);
            lemma_set_of_contains(b@, t);
        }
        assert(set_of(a@) =~= set_of(b@));
    }
    true
}


/// Whether two strings hold the same text.
pub fn str_eq(a: &str, b: &str) -> (r: bool)
    ensures
        r == (a@ == b@),
{
    let n = a.unicode_len();
    if n != b.unicode_len() {
        return false;
    }
    let mut i: usize = 0;
    while i < n
        invariant
            0 <= i <= n,
            n == a@.len(),
            n == b@.len(),
            forall|j: int| 0 <= j < i ==> a@[j] == b@[j],
        decreases n - i,
    {
        if a.get_char(i) != b.get_char(i) {
            return false;
        }
        i = i + 1;
    }
    proof {
        assert(a@ =~= b@);
    }
    true
}

/// The rules of the algorithm: for each token, the tokens allowed next to it.
/// Where a token has several entries, its allowed neighbors are their union.
pub struct Rules {
    pub entries: Vec<(String, Allowed)>,
}

/// Writing the entry at `p` sets the neighbors of its token and keeps those
/// of every other token.
proof fn lemma_entry_set(o: Rules, n: Rules, p: int, k: Seq<char>, a: Allowed)
    requires
        o.keys_unique(),
        0 <= p < n.entries@.len(),
        n.entries@.len() == o.entries@.len() || (n.entries@.len() == o.entries@.len() + 1 && p == o.entries@.len()),
        n.entries@[p].0@ == k,
        n.entries@[p].1 == a,
        forall|j: int| 0 <= j < n.entries@.len() && j != p ==> n.entries@[j] == o.entries@[j],
        p < o.entries@.len() ==> o.entries@[p].0@ == k,
        p == o.entries@.len() ==> !o.key_set().contains(k),
    ensures
        n.after_of(k) == set_of(a.after@),
        n.before_of(k) == set_of(a.before@),
        forall|t: Seq<char>| t != k ==> #[trigger] n.after_of(t) == o.after_of(t),
        forall|t: Seq<char>| t != k ==> #[trigger] n.before_of(t) == o.before_of(t),
{
    assert forall|u: Seq<char>| n.after_of(k).contains(u) <==> set_of(a.after@).contains(u) by {
        if n.after_of(k).contains(u) {
            let j = choose|j: int| 0 <= j < n.entries@.len() && #[trigger] n.entries@[j].0@ == k
                && set_of(n.entries@[j].1.after@).contains(u);
            if j != p {
                assert(o.entries@[j].0@ == k);
            }
        }
        if set_of(a.after@).contains(u) {
            assert(n.entries@[p].0@ == k);
        }
    }
    assert(n.after_of(k) =~= set_of(a.after@));
    assert forall|u: Seq<char>| n.before_of(k).contains(u) <==> set_of(a.before@).contains(u) by {
        if n.before_of(k).contains(u) {
            let j = choose|j: int| 0 <= j < n.entries@.len() && #[trigger] n.entries@[j].0@ == k
                && set_of(n.entries@[j].1.before@).contains(u);
            if j != p {
                assert(o.entries@[j].0@ == k);
            }
        }
        if set_of(a.before@).contains(u) {
            assert(n.entries@[p].0@ == k);
        }
    }
    assert(n.before_of(k) =~= set_of(a.before@));
    assert forall|t: Seq<char>| t != k implies n.after_of(t) == o.after_of(t) && #[trigger] n.before_of(t) == o.before_of(t) by {
        assert forall|u: Seq<char>| n.after_of(t).contains(u) <==> o.after_of(t).contains(u) by {
            if n.after_of(t).contains(u) {
                let j = choose|j: int| 0 <= j < n.entries@.len() && #[trigger] n.entries@[j].0@ == t
                    && set_of(n.entries@[j].1.after@).contains(u);
                assert(o.entries@[j].0@ == t);
            }
            if o.after_of(t).contains(u) {
                let j = choose|j: int| 0 <= j < o.entries@.len() && #[trigger] o.entries@[j].0@ == t
                    && set_of(o.entries@[j].1.after@).contains(u);
                assert(n.entries@[j].0@ == t);
            }
        }
        assert forall|u: Seq<char>| n.before_of(t).contains(u) <==> o.before_of(t).contains(u) by {
            if n.before_of(t).contains(u) {
                let j = choose|j: int| 0 <= j < n.entries@.len() && #[trigger] n.entries@[j].0@ == t
                    && set_of(n.entries@[j].1.before@).contains(u);
                assert(o.entries@[j].0@ == t);
            }
            if o.before_of(t).contains(u) {
                let j = choose|j: int| 0 <= j < o.entries@.len() && #[trigger] o.entries@[j].0@ == t
                    && set_of(o.entries@[j].1.before@).contains(u);
                assert(n.entries@[j].0@ == t);
            }
        }
        assert(n.after_of(t) =~= o.after_of(t));
        assert(n.before_of(t) =~= o.before_of(t));
    }
}

impl Rules {
    /// The tokens that have an entry.
    pub open spec fn key_set(&self) -> Set<Seq<char>> {
        Set::new(|t: Seq<char>| exists|i: int| 0 <= i < self.entries@.len() && #[trigger] self.entries@[i].0@ == t)
    }

    /// The tokens allowed immediately after `t`.
    pub open spec fn after_of(&self, t: Seq<char>) -> Set<Seq<char>> {
        Set::new(|u: Seq<char>| exists|i: int| 0 <= i < self.entries@.len() && #[trigger] self.entries@[i].0@ == t
            && set_of(self.entries@[i].1.after@).contains(u))
    }

    /// The tokens allowed immediately before `t`.
    pub open spec fn before_of(&self, t: Seq<char>) -> Set<Seq<char>> {
        Set::new(|u: Seq<char>| exists|i: int| 0 <= i < self.entries@.len() && #[trigger] self.entries@[i].0@ == t
            && set_of(self.entries@[i].1.before@).contains(u))
    }

    /// No token has two entries.
    pub open spec fn keys_unique(&self) -> bool {
        forall|i: int, j: int| 0 <= i < j < self.entries@.len() ==> self.entries@[i].0@ != self.entries@[j].0@
    }

    /// A copy of the allowed record of `key`; an empty one where it has no entry.
    pub fn allowed_of(&self, key: &String) -> (r: Allowed)
        requires
            self.keys_unique(),
        ensures
            distinct(r.before@),
            distinct(r.after@),
            set_of(r.before@) == self.before_of(key@),
            set_of(r.after@) == self.after_of(key@),
    {
        let mut before: Vec<String> = Vec::new();
        let mut after: Vec<String> = Vec::new();
        proof {
            assert(set_of(before@) =~= Set::<Seq<char>>::empty());
        }
        match self.find(key.as_str()) {
            Some(i) => {
                union_into(&mut before, &self.entries[i].1.before);
                union_into(&mut after, &self.entries[i].1.after);
                proof {
                    let k = key@;
                    assert forall|u: Seq<char>| self.after_of(k).contains(u) <==> set_of(after@).contains(u) by {
                        if self.after_of(k).contains(u) {
                            let j = choose|j: int| 0 <= j < self.entries@.len() && #[trigger] self.entries@[j].0@ == k
                                && set_of(self.entries@[j].1.after@).contains(u);
                            assert(j == i);
                        }
                        if set_of(after@).contains(u) {
                            assert(self.entries@[i as int].0@ == k);
                        }
                    }
                    assert forall|u: Seq<char>| self.before_of(k).contains(u) <==> set_of(before@).contains(u) by {
                        if self.before_of(k).contains(u) {
                            let j = choose|j: int| 0 <= j < self.entries@.len() && #[trigger] self.entries@[j].0@ == k
                                && set_of(self.entries@[j].1.before@).contains(u);
                            assert(j == i);
                        }
                        if set_of(before@).contains(u) {
                            assert(self.entries@[i as int].0@ == k);
                        }
                    }
                    assert(self.after_of(k) =~= set_of(after@));
                    assert(self.before_of(k) =~= set_of(before@));
                }
            },
            None => {
                proof {
                    assert(self.after_of(key@) =~= Set::<Seq<char>>::empty());
                    assert(self.before_of(key@) =~= Set::<Seq<char>>::empty());
                }
            },
        }
        Allowed { before, after }
    }

    /// Rules with no entry.
    pub fn new() -> (r: Self)
        ensures
            r.entries@.len() == 0,
    {
        Rules { entries: Vec::new() }
    }

    /// The position of the entry of `key`, if there is one.
    pub fn find(&self, key: &str) -> (r: Option<usize>)
        ensures
            r.is_none() <==> !self.key_set().contains(key@),
            r.is_some() ==> r.unwrap() < self.entries@.len() && self.entries@[r.unwrap() as int].0@ == key@,
    {
        let mut i: usize = 0;
        while i < self.entries.len()
            invariant
                0 <= i <= self.entries@.len(),
                forall|j: int| 0 <= j < i ==> self.entries@[j].0@ != key@,
            decreases self.entries@.len() - i,
        {
            if str_eq(self.entries[i].0.as_str(), key) {
                return Some(i);
            }
            i = i + 1;
        }
        None
    }

    /// Whether `key` has an entry.
    pub fn contains_key(&self, key: &str) -> (r: bool)
        ensures
            r == self.key_set().contains(key@),
    {
        self.find(key).is_some()
    }

    /// The allowed record of `key`, if it has an entry.
    pub fn get(&self, key: &str) -> (r: Option<&Allowed>)
        ensures
            r.is_none() <==> !self.key_set().contains(key@),
            r.is_some() ==> exists|i: int| 0 <= i < self.entries@.len() && self.entries@[i].0@ == key@
                && self.entries@[i].1 == *r.unwrap(),
    {
        match self.find(key) {
            Some(i) => Some(&self.entries[i].1),
            None => None,
        }
    }

    /// Sets the allowed record of `key`, replacing the one it had.
    pub fn insert(&mut self, key: String, allowed: Allowed)
        requires
            old(self).keys_unique(),
        ensures
            final(self).keys_unique(),
            final(self).key_set() == old(self).key_set().insert(key@),
            final(self).after_of(key@) == set_of(allowed.after@),
            final(self).before_of(key@) == set_of(allowed.before@),
            forall|t: Seq<char>| t != key@ ==> #[trigger] final(self).after_of(t) == old(self).after_of(t),
            forall|t: Seq<char>| t != key@ ==> #[trigger] final(self).before_of(t) == old(self).before_of(t),
    {
        let ghost k = key@;
        let ghost a = allowed;
        match self.find(key.as_str()) {
            Some(i) => {
                self.entries.set(i, (key, allowed));
                proof {
                    assert forall|t: Seq<char>| final(self).key_set().contains(t) <==> old(self).key_set().insert(k).contains(t) by {
                        if final(self).key_set().contains(t) {
                            let j = choose|j: int| 0 <= j < final(self).entries@.len() && #[trigger] final(self).entries@[j].0@ == t;
                            if j != i {
                                assert(old(self).entries@[j].0@ == t);
                            }
                        }
                        if old(self).key_set().contains(t) {
                            let j = choose|j: int| 0 <= j < old(self).entries@.len() && #[trigger] old(self).entries@[j].0@ == t;
                            if j != i {
                                assert(final(self).entries@[j].0@ == t);
                            }
                        }
                        if t == k {
                            assert(final(self).entries@[i as int].0@ == t);
                        }
                    }
                    assert(final(self).key_set() =~= old(self).key_set().insert(k));
                    lemma_entry_set(*old(self), *final(self), i as int, k, a);
                }
            },
            None => {
                self.entries.push((key, allowed));
                proof {
                    let n = old(self).entries@.len() as int;
                    assert(final(self).entries@[n].0@ == k);
                    assert forall|t: Seq<char>| final(self).key_set().contains(t) <==> old(self).key_set().insert(k).contains(t) by {
                        if final(self).key_set().contains(t) {
                            let j = choose|j: int| 0 <= j < final(self).entries@.len() && #[trigger] final(self).entries@[j].0@ == t;
                            if j != n {
                                assert(old(self).entries@[j].0@ == t);
                            }
                        }
                        if old(self).key_set().contains(t) {
                            let j = choose|j: int| 0 <= j < old(self).entries@.len() && #[trigger] old(self).entries@[j].0@ == t;
                            assert(final(self).entries@[j].0@ == t);
                        }
                    }
                    assert(final(self).key_set() =~= old(self).key_set().insert(k));
                    lemma_entry_set(*old(self), *final(self), n, k, a);
                }
            },
        }
    }

    /// The tokens that have an entry, each once.
    pub fn keys(&self) -> (r: Vec<String>)
        ensures
            distinct(r@),
            set_of(r@) == self.key_set(),
    {
        let mut r: Vec<String> = Vec::new();
        let mut i: usize = 0;
        while i < self.entries.len()
            invariant
                0 <= i <= self.entries@.len(),
                distinct(r@),
                set_of(r@) == Set::new(|t: Seq<char>| exists|j: int| 0 <= j < i && #[trigger] self.entries@[j].0@ == t),
            decreases self.entries@.len() - i,
        {
            insert_token(&mut r, self.entries[i].0.clone());
            proof {
                assert(set_of(r@) =~= Set::new(|t: Seq<char>| exists|j: int| 0 <= j < i + 1 && #[trigger] self.entries@[j].0@ == t));
            }
            i = i + 1;
        }
        proof {
            assert(set_of(r@) =~= self.key_set());
        }
        r
    }
}

/// The initial vector for a line of `size` tokens: the start marker, `size`
/// positions that may hold any token of the rules, and the end marker.
pub fn generate_wfc_vector(rules: &Rules, size: usize) -> (r: WfcVector)
    requires
        size + 2 <= usize::MAX,
    ensures
        r@.len() == size + 2,
        domains(r@)[0] == set![start_text()],
        domains(r@)[size + 1] == set![end_text()],
        forall|i: int| 1 <= i <= size ==> #[trigger] domains(r@)[i] == rules.key_set(),
        all_distinct(r@),
{
    let keys = rules.keys();
    let mut vector: WfcVector = Vec::with_capacity(size + 2);
    let mut i: usize = 0;
    while i < size + 2
        invariant
            size + 2 <= usize::MAX,
            0 <= i <= size + 2,
            vector@.len() == i,
            distinct(keys@),
            set_of(keys@) == rules.key_set(),
            forall|j: int| 0 <= j < i ==> #[trigger] vector@[j]@ == keys@,
        decreases size + 2 - i,
    {
        vector.push(keys.clone());
        i = i + 1;
    }
    let start = vec![start_token()];
    let end = vec![end_token()];
    proof {
        assert(set_of(start@) =~= set![start_text()]) by {
            assert(texts(start@) =~= seq![start_text()]);
            lemma_set_of_contains(start@, start_text());
        }
        assert(set_of(end@) =~= set![end_text()]) by {
            assert(texts(end@) =~= seq![end_text()]);
            lemma_set_of_contains(end@, end_text());
        }
        assert(distinct(start@));
        assert(distinct(end@));
    }
    vector.set(0, start);
    vector.set(size + 1, end);
    proof {
        assert forall|j: int| 0 <= j < vector@.len() implies #[trigger] distinct(vector@[j]@) by {}
        assert forall|j: int| 1 <= j <= size implies #[trigger] domains(vector@)[j] == rules.key_set() by {}
    }
    vector
}

} // verus!
