use vstd::prelude::*;

verus! {

/// The characters of a string, in order.
/// Relies on `str::chars`, collected into a vector.
#[verifier::external_body]
pub(crate) fn chars_of(s: &str) -> (r: Vec<char>)
    ensures
        r@ == s@,
{
    s.chars().collect()
}

/// The string of the given characters.
/// Relies on `String`'s `FromIterator<char>`, which appends them in order.
#[verifier::external_body]
pub(crate) fn string_of(v: &Vec<char>) -> (r: String)
    ensures
        r@ == v@,
{
    v.iter().collect()
}

/// The first `n` characters of `s`, with each run of `c` cut to one `c`.
pub open spec fn squash_upto(s: Seq<char>, c: char, n: int) -> Seq<char>
    decreases n,
{
    if n <= 0 {
        Seq::empty()
    } else {
        let p = squash_upto(s, c, n - 1);
        if s[n - 1] == c && p.len() > 0 && p.last() == c {
            p
        } else {
            p.push(s[n - 1])
        }
    }
}

/// `s` with each run of `c` cut to one `c`.
pub open spec fn squash(s: Seq<char>, c: char) -> Seq<char> {
    squash_upto(s, c, s.len() as int)
}

/// The first `n` characters of `s`, without the spaces that directly follow `x`.
pub open spec fn drop_space_after_upto(s: Seq<char>, x: char, n: int) -> Seq<char>
    decreases n,
{
    if n <= 0 {
        Seq::empty()
    } else {
        let p = drop_space_after_upto(s, x, n - 1);
        if s[n - 1] == ' ' && n >= 2 && s[n - 2] == x {
            p
        } else {
            p.push(s[n - 1])
        }
    }
}

/// The first `n` characters of `s`, without the spaces that directly precede `y`.
pub open spec fn drop_space_before_upto(s: Seq<char>, y: char, n: int) -> Seq<char>
    decreases n,
{
    if n <= 0 {
        Seq::empty()
    } else {
        let p = drop_space_before_upto(s, y, n - 1);
        if s[n - 1] == ' ' && n < s.len() && s[n] == y {
            p
        } else {
            p.push(s[n - 1])
        }
    }
}

/// The first `n` characters of `s`, with each `from` written as `to`.
pub open spec fn subst_upto(s: Seq<char>, from: char, to: Seq<char>, n: int) -> Seq<char>
    decreases n,
{
    if n <= 0 {
        Seq::empty()
    } else {
        subst_upto(s, from, to, n - 1) + if s[n - 1] == from {
            to
        } else {
            seq![s[n - 1]]
        }
    }
}

/// `s` with each `from` written as `to`.
pub open spec fn subst(s: Seq<char>, from: char, to: Seq<char>) -> Seq<char> {
    subst_upto(s, from, to, s.len() as int)
}

/// The tokens of `v` joined by single spaces.
pub open spec fn join(v: Seq<Seq<char>>) -> Seq<char>
    decreases v.len(),
{
    if v.len() == 0 {
        Seq::empty()
    } else if v.len() == 1 {
        v[0]
    } else {
        join(v.drop_last()) + seq![' '] + v.last()
    }
}

/// The marks that take no space after them.
pub open spec fn before_marks() -> Seq<char> {
    seq!['(', '\u{2}', '\u{3}']
}

/// The marks that take no space before them.
pub open spec fn after_marks() -> Seq<char> {
    seq!['.', '!', '?', ',', ':', ')', ';', '\u{2}', '\u{3}']
}

/// `s` without the spaces after each of the first `k` marks of `before_marks`,
/// taken one mark after the other.
pub open spec fn drop_after_marks(s: Seq<char>, k: int) -> Seq<char>
    decreases k,
{
    if k <= 0 {
        s
    } else {
        let p = drop_after_marks(s, k - 1);
        drop_space_after_upto(p, before_marks()[k - 1], p.len() as int)
    }
}

/// `s` without the spaces before each of the first `k` marks of `after_marks`,
/// taken one mark after the other.
pub open spec fn drop_before_marks(s: Seq<char>, k: int) -> Seq<char>
    decreases k,
{
    if k <= 0 {
        s
    } else {
        let p = drop_before_marks(s, k - 1);
        drop_space_before_upto(p, after_marks()[k - 1], p.len() as int)
    }
}

/// `s` with the spaces next to marks taken out.
pub open spec fn fixed(s: Seq<char>) -> Seq<char> {
    drop_before_marks(drop_after_marks(s, 3), 9)
}

/// The text of a line of tokens.
pub open spec fn merged(v: Seq<Seq<char>>) -> Seq<char> {
    squash(squash(subst(subst(fixed(join(v)), '\u{2}', Seq::empty()), '\u{3}', seq!['\n']), '\n'), ' ')
}

pub(crate) fn squash_chars(s: &Vec<char>, c: char) -> (r: Vec<char>)
    ensures
        r@ == squash(s@, c),
{
    let mut r: Vec<char> = Vec::new();
    let mut i: usize = 0;
    while i < s.len()
        invariant
            0 <= i <= s@.len(),
            r@ == squash_upto(s@, c, i as int),
        decreases s@.len() - i,
    {
        let ch = s[i];
        if !(ch == c && r.len() > 0 && r[r.len() - 1] == c) {
            r.push(ch);
        }
        i = i + 1;
    }
    r
}

/// Cuts each run of `char` in `string` to one `char` (double spaces become
/// one space, for example).
pub fn remove_double_char(string: String, char: char) -> (r: String)
    ensures
        r@ == squash(string@, char),
{
    let chars = chars_of(string.as_str());
    string_of(&squash_chars(&chars, char))
}

fn drop_space_after(s: &Vec<char>, x: char) -> (r: Vec<char>)
    ensures
        r@ == drop_space_after_upto(s@, x, s@.len() as int),
{
    let mut r: Vec<char> = Vec::new();
    let mut i: usize = 0;
    while i < s.len()
        invariant
            0 <= i <= s@.len(),
            r@ == drop_space_after_upto(s@, x, i as int),
        decreases s@.len() - i,
    {
        if !(s[i] == ' ' && i >= 1 && s[i - 1] == x) {
            r.push(s[i]);
        }
        i = i + 1;
    }
    r
}

fn drop_space_before(s: &Vec<char>, y: char) -> (r: Vec<char>)
    ensures
        r@ == drop_space_before_upto(s@, y, s@.len() as int),
{
    let mut r: Vec<char> = Vec::new();
    let mut i: usize = 0;
    while i < s.len()
        invariant
            0 <= i <= s@.len(),
            r@ == drop_space_before_upto(s@, y, i as int),
        decreases s@.len() - i,
    {
        if !(s[i] == ' ' && i + 1 < s.len() && s[i + 1] == y) {
            r.push(s[i]);
        }
        i = i + 1;
    }
    r
}

pub(crate) fn subst_chars(s: &Vec<char>, from: char, to: &Vec<char>) -> (r: Vec<char>)
    ensures
        r@ == subst(s@, from, to@),
{
    let mut r: Vec<char> = Vec::new();
    let mut i: usize = 0;
    while i < s.len()
        invariant
            0 <= i <= s@.len(),
            r@ == subst_upto(s@, from, to@, i as int),
        decreases s@.len() - i,
    {
        if s[i] == from {
            let mut k: usize = 0;
            let ghost r0 = r@;
            while k < to.len()
                invariant
                    0 <= k <= to@.len(),
                    r@ == r0 + to@.take(k as int),
                decreases to@.len() - k,
            {
                r.push(to[k]);
                k = k + 1;
                proof {
                    assert(r@ =~= r0 + to@.take(k as int));
                }
            }
            proof {
                assert(to@.take(to@.len() as int) =~= to@);
            }
        } else {
            r.push(s[i]);
            proof {
                assert(r@ =~= subst_upto(s@, from, to@, i as int) + seq![s@[i as int]]);
            }
        }
        i = i + 1;
    }
    r
}

/// The marks that take no space after them, in order.
fn before_mark_list() -> (r: Vec<char>)
    ensures
        r@ == before_marks(),
{
    let r = vec!['(', '\u{2}', '\u{3}'];
    proof {
        assert(r@ =~= before_marks());
    }
    r
}

/// The marks that take no space before them, in order.
fn after_mark_list() -> (r: Vec<char>)
    ensures
        r@ == after_marks(),
{
    let r = vec!['.', '!', '?', ',', ':', ')', ';', '\u{2}', '\u{3}'];
    proof {
        assert(r@ =~= after_marks());
    }
    r
}

/// Takes out the space after each opening mark and before each closing mark.
fn fix_tokens(s: Vec<char>) -> (r: Vec<char>)
    ensures
        r@ == fixed(s@),
{
    let marks = before_mark_list();
    let mut cur = s;
    let mut k: usize = 0;
    while k < marks.len()
        invariant
            0 <= k <= marks@.len(),
            marks@ == before_marks(),
            cur@ == drop_after_marks(s@, k as int),
        decreases marks@.len() - k,
    {
        cur = drop_space_after(&cur, marks[k]);
        k = k + 1;
    }
    let ghost mid = cur@;
    let marks = after_mark_list();
    let mut k: usize = 0;
    while k < marks.len()
        invariant
            0 <= k <= marks@.len(),
            marks@ == after_marks(),
            cur@ == drop_before_marks(mid, k as int),
        decreases marks@.len() - k,
    {
        cur = drop_space_before(&cur, marks[k]);
        k = k + 1;
    }
    cur
}

/// Joins the tokens with single spaces.
fn join_tokens(vector: &Vec<String>) -> (r: Vec<char>)
    ensures
        r@ == join(vector@.map_values(|s: String| s@)),
{
    let ghost v = vector@.map_values(|s: String| s@);
    let mut r: Vec<char> = Vec::new();
    let mut i: usize = 0;
    while i < vector.len()
        invariant
            0 <= i <= vector@.len(),
            v == vector@.map_values(|s: String| s@),
            r@ == join(v.take(i as int)),
        decreases vector@.len() - i,
    {
        if i > 0 {
            r.push(' ');
        }
        let chars = chars_of(vector[i].as_str());
        let mut k: usize = 0;
        let ghost r1 = r@;
        while k < chars.len()
            invariant
                0 <= k <= chars@.len(),
                r@ == r1 + chars@.take(k as int),
            decreases chars@.len() - k,
        {
            r.push(chars[k]);
            k = k + 1;
            proof {
                assert(r@ =~= r1 + chars@.take(k as int));
            }
        }
        proof {
            assert(chars@.take(chars@.len() as int) =~= chars@);
            assert(v.take(i + 1).drop_last() =~= v.take(i as int));
            if i == 0 {
                assert(r1 =~= Seq::<char>::empty());
                assert(r@ =~= v[0]);
            } else {
                assert(r@ =~= join(v.take(i as int)) + seq![' '] + v[i as int]);
            }
        }
        i = i + 1;
    }
    proof {
        assert(v.take(vector@.len() as int) =~= v);
    }
    r
}

/// The text of a line of tokens: the tokens joined by spaces, without the
/// space after an opening mark or before a closing one, the start marker
/// dropped, the end marker written as a line break, and runs of line breaks
/// and of spaces cut to one.
pub fn merge(vector: Vec<String>) -> (r: String)
    ensures
        r@ == merged(vector@.map_values(|s: String| s@)),
{
    let joined = join_tokens(&vector);
    let fixed_chars = fix_tokens(joined);
    let nothing: Vec<char> = Vec::new();
    let no_start = subst_chars(&fixed_chars, '\u{2}', &nothing);
    let line_break = vec!['\n'];
    let no_end = subst_chars(&no_start, '\u{3}', &line_break);
    proof {
        assert(line_break@ =~= seq!['\n']);
    }
    let lines = squash_chars(&no_end, '\n');
    let spaces = squash_chars(&lines, ' ');
    string_of(&spaces)
}

} // verus!
