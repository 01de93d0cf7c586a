use crate::post_processing::{
    after_marks, before_marks, chars_of, squash, squash_chars, string_of, subst, subst_chars,
};
use crate::rules::{
    end_text, end_token, insert_token, set_of, start_text, start_token, texts, Allowed, Rules,
};
use vstd::prelude::*;

verus! {

/// The lower-case form of a text.
pub uninterp spec fn lower_of(s: Seq<char>) -> Seq<char>;

/// Relies on `str::to_lowercase`: its result depends on the characters alone.
#[verifier::external_body]
fn lowercase(s: &str) -> (r: String)
    ensures
        r@ == lower_of(s@),
{
    s.to_lowercase()
}

/// `s` with a space written after each of the first `k` marks of `before_marks`.
pub open spec fn spaced_after(s: Seq<char>, k: int) -> Seq<char>
    decreases k,
{
    if k <= 0 {
        s
    } else {
        let m = before_marks()[k - 1];
        subst(spaced_after(s, k - 1), m, seq![m, ' '])
    }
}

/// `s` with a space written before each of the first `k` marks of `after_marks`.
pub open spec fn spaced_before(s: Seq<char>, k: int) -> Seq<char>
    decreases k,
{
    if k <= 0 {
        s
    } else {
        let m = after_marks()[k - 1];
        subst(spaced_before(s, k - 1), m, seq![' ', m])
    }
}

/// `s` without one line break at its end.
pub open spec fn trimmed(s: Seq<char>) -> Seq<char> {
    if s.len() > 0 && s.last() == '\n' {
        s.drop_last()
    } else {
        s
    }
}

/// A lower-case text as one line: marks and line breaks set apart by spaces, runs of spaces
/// cut to one, and the start and end markers round it.
pub open spec fn line_of(s: Seq<char>) -> Seq<char> {
    seq!['\u{2}', ' '] + squash(subst(spaced_before(spaced_after(trimmed(s), 3), 9), '\n', seq![' ', '\n', ' ']), ' ')
        + seq![' ', '\u{3}']
}

/// The pieces of the first `n` characters of `s` between spaces.
pub open spec fn split_upto(s: Seq<char>, n: int) -> Seq<Seq<char>>
    decreases n,
{
    if n <= 0 {
        seq![Seq::<char>::empty()]
    } else {
        let p = split_upto(s, n - 1);
        if s[n - 1] == ' ' {
            p.push(Seq::empty())
        } else {
            p.update(p.len() - 1, p.last().push(s[n - 1]))
        }
    }
}

/// The pieces of `s` between spaces.
pub open spec fn split(s: Seq<char>) -> Seq<Seq<char>> {
    split_upto(s, s.len() as int)
}

/// The pieces of a text between spaces.
fn split_spaces(s: &Vec<char>) -> (r: Vec<String>)
    ensures
        texts(r@) == split(s@),
{
    let mut tokens: Vec<String> = Vec::new();
    let mut cur: Vec<char> = Vec::new();
    let mut i: usize = 0;
    proof {
        assert(texts(tokens@).push(cur@) =~= split_upto(s@, 0));
    }
    while i < s.len()
        invariant
            0 <= i <= s@.len(),
            texts(tokens@).push(cur@) == split_upto(s@, i as int),
        decreases s@.len() - i,
    {
        if s[i] == ' ' {
            let piece = string_of(&cur);
            tokens.push(piece);
            cur = Vec::new();
            proof {
                assert(texts(tokens@).push(cur@) =~= split_upto(s@, i as int).push(Seq::empty()));
            }
        } else {
            let ghost before = texts(tokens@).push(cur@);
            cur.push(s[i]);
            proof {
                assert(texts(tokens@).push(cur@) =~= before.update(before.len() - 1, before.last().push(s@[i as int])));
            }
        }
        i = i + 1;
    }
    let piece = string_of(&cur);
    tokens.push(piece);
    proof {
        assert(texts(tokens@) =~= split_upto(s@, s@.len() as int));
    }
    tokens
}

/// The tokens of a text that is already in lower case: the start marker,
/// the words and marks of the text, and the end marker.
pub fn parse_lowered(text: &str) -> (r: Vec<String>)
    ensures
        texts(r@) == split(line_of(text@)),
{
    let mut chars = chars_of(text);
    if chars.len() > 0 && chars[chars.len() - 1] == '\n' {
        chars.pop();
    }
    proof {
        assert(chars@ =~= trimmed(text@));
    }
    let marks = vec!['(', '\u{2}', '\u{3}'];
    proof {
        assert(marks@ =~= before_marks());
    }
    let mut k: usize = 0;
    while k < marks.len()
        invariant
            0 <= k <= marks@.len(),
            marks@ == before_marks(),
            chars@ == spaced_after(trimmed(text@), k as int),
        decreases marks@.len() - k,
    {
        let m = marks[k];
        let with = vec![m, ' '];
        proof {
            assert(with@ =~= seq![m, ' ']);
        }
        chars = subst_chars(&chars, m, &with);
        k = k + 1;
    }
    let ghost mid = chars@;
    let marks = vec!['.', '!', '?', ',', ':', ')', ';', '\u{2}', '\u{3}'];
    proof {
        assert(marks@ =~= after_marks());
    }
    let mut k: usize = 0;
    while k < marks.len()
        invariant
            0 <= k <= marks@.len(),
            marks@ == after_marks(),
            chars@ == spaced_before(mid, k as int),
        decreases marks@.len() - k,
    {
        let m = marks[k];
        let with = vec![' ', m];
        proof {
            assert(with@ =~= seq![' ', m]);
        }
        chars = subst_chars(&chars, m, &with);
        k = k + 1;
    }
    let line_break = vec![' ', '\n', ' '];
    proof {
        assert(line_break@ =~= seq![' ', '\n', ' ']);
    }
    chars = subst_chars(&chars, '\n', &line_break);
    let body = squash_chars(&chars, ' ');
    let mut line: Vec<char> = vec!['\u{2}', ' '];
    let mut i: usize = 0;
    while i < body.len()
        invariant
            0 <= i <= body@.len(),
            line@ == seq!['\u{2}', ' '] + body@.take(i as int),
        decreases body@.len() - i,
    {
        line.push(body[i]);
        i = i + 1;
        proof {
            assert(line@ =~= seq!['\u{2}', ' '] + body@.take(i as int));
        }
    }
    line.push(' ');
    line.push('\u{3}');
    proof {
        assert(body@.take(body@.len() as int) =~= body@);
        assert(line@ =~= line_of(text@));
    }
    split_spaces(&line)
}

/// The tokens of a text: the start marker, the words and marks of its
/// lower-case form, and the end marker.
pub fn parse_text(text: String) -> (r: Vec<String>)
    ensures
        texts(r@) == split(line_of(lower_of(text@))),
{
    let lowered = lowercase(text.as_str());
    parse_lowered(lowered.as_str())
}


/// The tokens that follow `t` among the first `n` tokens of `tk`.
pub open spec fn followers_upto(tk: Seq<Seq<char>>, t: Seq<char>, n: int) -> Set<Seq<char>> {
    Set::new(|u: Seq<char>| exists|j: int| 0 <= j < n && j + 1 < tk.len() && #[trigger] tk[j] == t && tk[j + 1] == u)
}

/// The tokens that precede `t` among the first `n` tokens of `tk`.
pub open spec fn leaders_upto(tk: Seq<Seq<char>>, t: Seq<char>, n: int) -> Set<Seq<char>> {
    Set::new(|u: Seq<char>| exists|j: int| 0 < j < n && j < tk.len() && #[trigger] tk[j] == t && tk[j - 1] == u)
}

/// The tokens that follow `t` somewhere in `tk`, and the start marker after
/// the end marker.
pub open spec fn learned_after(tk: Seq<Seq<char>>, t: Seq<char>) -> Set<Seq<char>> {
    let f = followers_upto(tk, t, tk.len() as int);
    if t == end_text() && tk.contains(end_text()) {
        f.insert(start_text())
    } else {
        f
    }
}

/// The tokens that precede `t` somewhere in `tk`, and the end marker before
/// the start marker.
pub open spec fn learned_before(tk: Seq<Seq<char>>, t: Seq<char>) -> Set<Seq<char>> {
    let l = leaders_upto(tk, t, tk.len() as int);
    if t == start_text() && tk.contains(start_text()) {
        l.insert(end_text())
    } else {
        l
    }
}

/// Adds one neighbor to the record of `key`.
fn add_neighbor(rules: &mut Rules, key: &String, neighbor: String, after: bool)
    requires
        old(rules).keys_unique(),
        old(rules).key_set().contains(key@),
    ensures
        final(rules).keys_unique(),
        final(rules).key_set() == old(rules).key_set(),
        after ==> final(rules).after_of(key@) == old(rules).after_of(key@).insert(neighbor@),
        after ==> final(rules).before_of(key@) == old(rules).before_of(key@),
        !after ==> final(rules).before_of(key@) == old(rules).before_of(key@).insert(neighbor@),
        !after ==> final(rules).after_of(key@) == old(rules).after_of(key@),
        forall|t: Seq<char>| t != key@ ==> #[trigger] final(rules).after_of(t) == old(rules).after_of(t),
        forall|t: Seq<char>| t != key@ ==> #[trigger] final(rules).before_of(t) == old(rules).before_of(t),
{
    let mut a = rules.allowed_of(key);
    if after {
        insert_token(&mut a.after, neighbor);
    } else {
        insert_token(&mut a.before, neighbor);
    }
    rules.insert(key.clone(), a);
    proof {
        assert(final(rules).key_set() =~= old(rules).key_set());
    }
}

/// Learns the rules of a line of tokens: each token may stand before the
/// token that follows it and after the token that precedes it; the end
/// marker may be followed by the start marker, and the start marker
/// preceded by the end marker.
pub fn convert_tokens_to_rules(tokens: &Vec<String>) -> (r: Rules)
    ensures
        r.keys_unique(),
        r.key_set() == set_of(tokens@),
        forall|t: Seq<char>| #[trigger] r.after_of(t) == learned_after(texts(tokens@), t),
        forall|t: Seq<char>| #[trigger] r.before_of(t) == learned_before(texts(tokens@), t),
{
    let ghost tk = texts(tokens@);
    let mut rules = Rules::new();
    let mut i: usize = 0;
    proof {
        assert(rules.key_set() =~= set_of(tokens@.take(0)));
        assert forall|t: Seq<char>| #[trigger] rules.after_of(t) == followers_upto(tk, t, 0) by {
            assert(rules.after_of(t) =~= followers_upto(tk, t, 0));
        }
        assert forall|t: Seq<char>| #[trigger] rules.before_of(t) == leaders_upto(tk, t, 0) by {
            assert(rules.before_of(t) =~= leaders_upto(tk, t, 0));
        }
    }
    while i < tokens.len()
        invariant
            0 <= i <= tokens@.len(),
            tk == texts(tokens@),
            rules.keys_unique(),
            rules.key_set() == set_of(tokens@.take(i as int)),
            forall|t: Seq<char>| #[trigger] rules.after_of(t) == followers_upto(tk, t, i as int),
            forall|t: Seq<char>| #[trigger] rules.before_of(t) == leaders_upto(tk, t, i as int),
        decreases tokens@.len() - i,
    {
        let token = &tokens[i];
        let ghost k = token@;
        proof {
            crate::rules::lemma_set_of_take(tokens@, i as int);
        }
        if !rules.contains_key(token.as_str()) {
            let empty = Allowed::empty();
            proof {
                assert(set_of(empty.after@) =~= Set::<Seq<char>>::empty());
                assert(set_of(empty.before@) =~= Set::<Seq<char>>::empty());
                assert(followers_upto(tk, k, i as int) =~= Set::<Seq<char>>::empty()) by {
                    if exists|u: Seq<char>| followers_upto(tk, k, i as int).contains(u) {
                        let u = choose|u: Seq<char>| followers_upto(tk, k, i as int).contains(u);
                        let j = choose|j: int| 0 <= j < i && j + 1 < tk.len() && #[trigger] tk[j] == k && tk[j + 1] == u;
                        assert(tokens@.take(i as int)[j]@ == k);
                        crate::rules::lemma_set_of_contains(tokens@.take(i as int), k);
                    }
                }
                assert(leaders_upto(tk, k, i as int) =~= Set::<Seq<char>>::empty()) by {
                    if exists|u: Seq<char>| leaders_upto(tk, k, i as int).contains(u) {
                        let u = choose|u: Seq<char>| leaders_upto(tk, k, i as int).contains(u);
                        let j = choose|j: int| 0 < j < i && j < tk.len() && #[trigger] tk[j] == k && tk[j - 1] == u;
                        assert(tokens@.take(i as int)[j]@ == k);
                        crate::rules::lemma_set_of_contains(tokens@.take(i as int), k);
                    }
                }
            }
            rules.insert(token.clone(), empty);
        }
        if i > 0 {
            add_neighbor(&mut rules, token, tokens[i - 1].clone(), false);
        }
        if i + 1 < tokens.len() {
            add_neighbor(&mut rules, token, tokens[i + 1].clone(), true);
        }
        proof {
            let n = i as int;
            assert(tk[n] == k);
            assert(rules.key_set() =~= set_of(tokens@.take(n + 1)));
            assert forall|t: Seq<char>| #[trigger] rules.after_of(t) == followers_upto(tk, t, n + 1) by {
                if t == k {
                    if n + 1 < tk.len() {
                        assert(tk[n + 1] == tokens@[n + 1]@);
                    }
                }
                assert(rules.after_of(t) =~= followers_upto(tk, t, n + 1));
            }
            assert forall|t: Seq<char>| #[trigger] rules.before_of(t) == leaders_upto(tk, t, n + 1) by {
                if t == k {
                    if n > 0 {
                        assert(tk[n - 1] == tokens@[n - 1]@);
                    }
                }
                assert(rules.before_of(t) =~= leaders_upto(tk, t, n + 1));
            }
        }
        i = i + 1;
    }
    proof {
        assert(tokens@.take(tokens@.len() as int) =~= tokens@);
        crate::rules::lemma_set_of_contains(tokens@, end_text());
        crate::rules::lemma_set_of_contains(tokens@, start_text());
        assert(tk.contains(end_text()) <==> set_of(tokens@).contains(end_text()));
        assert(tk.contains(start_text()) <==> set_of(tokens@).contains(start_text()));
    }
    let end = end_token();
    let start = start_token();
    if rules.contains_key(end.as_str()) {
        add_neighbor(&mut rules, &end, start_token(), true);
    }
    if rules.contains_key(start.as_str()) {
        add_neighbor(&mut rules, &start, end_token(), false);
    }
    proof {
        assert forall|t: Seq<char>| #[trigger] rules.after_of(t) == learned_after(tk, t) by {
            assert(rules.after_of(t) =~= learned_after(tk, t));
        }
        assert forall|t: Seq<char>| #[trigger] rules.before_of(t) == learned_before(tk, t) by {
            assert(rules.before_of(t) =~= learned_before(tk, t));
        }
    }
    rules
}

/// Learns the rules of a text.
pub fn generate_rules(text: String) -> (r: Rules)
    ensures
        r.keys_unique(),
        r.key_set() == split(line_of(lower_of(text@))).to_set(),
        forall|t: Seq<char>| #[trigger] r.after_of(t) == learned_after(split(line_of(lower_of(text@))), t),
        forall|t: Seq<char>| #[trigger] r.before_of(t) == learned_before(split(line_of(lower_of(text@))), t),
{
    let tokens = parse_text(text);
    convert_tokens_to_rules(&tokens)
}

} // verus!
