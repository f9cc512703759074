//! The domain-list loader: turns raw newline-separated text into a sorted,
//! deduplicated sequence of domain names.
//!
//! Lines are trimmed and empty lines dropped; the first occurrence of each
//! domain is kept; domains are then ordered by comparing their dot-separated
//! labels from the top-level domain inward (the label sequence is reversed
//! before lexicographic comparison), which groups subdomains under their
//! parent domains.
use vstd::prelude::*;

use crate::outcome::names_view;
use crate::render::{contains_name, contains_string};

verus! {

/// Splits `s` at every occurrence of `c`; always at least one piece, and
/// empty pieces are kept.
pub open spec fn split_char(s: Seq<char>, c: char) -> Seq<Seq<char>>
    decreases s.len(),
{
    if s.len() == 0 {
        seq![Seq::<char>::empty()]
    } else {
        let rest = split_char(s.skip(1), c);
        if s[0] == c {
            seq![Seq::<char>::empty()] + rest
        } else {
            seq![seq![s[0]] + rest[0]] + rest.skip(1)
        }
    }
}

/// The pieces joined back with `c` between them.
pub open spec fn join_char(ls: Seq<Seq<char>>, c: char) -> Seq<char>
    decreases ls.len(),
{
    if ls.len() == 0 {
        Seq::empty()
    } else if ls.len() == 1 {
        ls[0]
    } else {
        ls[0] + seq![c] + join_char(ls.skip(1), c)
    }
}

proof fn lemma_head_tail_eq<A>(a: Seq<A>, b: Seq<A>)
    requires
        a.len() > 0,
        b.len() > 0,
        a[0] == b[0],
        a.skip(1) == b.skip(1),
    ensures
        a == b,
{
    assert(a.skip(1).len() == a.len() - 1);
    assert(b.skip(1).len() == b.len() - 1);
    assert(a.len() == b.len());
    assert forall|k: int| 0 <= k < a.len() implies a[k] == b[k] by {
        if k > 0 {
            assert(a[k] == a.skip(1)[k - 1]);
            assert(b[k] == b.skip(1)[k - 1]);
        }
    }
    assert(a =~= b);
}

pub proof fn lemma_split_char_len(s: Seq<char>, c: char)
    ensures
        split_char(s, c).len() >= 1,
    decreases s.len(),
{
    if s.len() > 0 {
        lemma_split_char_len(s.skip(1), c);
    }
}

/// Splitting then joining recovers the original text.
pub proof fn lemma_join_split(s: Seq<char>, c: char)
    ensures
        join_char(split_char(s, c), c) == s,
    decreases s.len(),
{
    if s.len() == 0 {
        assert(join_char(split_char(s, c), c) =~= s);
    } else {
        lemma_join_split(s.skip(1), c);
        lemma_split_char_len(s.skip(1), c);
        let rest = split_char(s.skip(1), c);
        if s[0] == c {
            let whole = seq![Seq::<char>::empty()] + rest;
            assert(whole.len() >= 2);
            assert(whole.skip(1) =~~= rest);
            assert(join_char(whole, c) == whole[0] + seq![c] + join_char(whole.skip(1), c));
            assert(join_char(whole, c) =~= seq![c] + s.skip(1));
            assert(seq![c] + s.skip(1) =~= s);
        } else {
            let whole = seq![seq![s[0]] + rest[0]] + rest.skip(1);
            if rest.len() == 1 {
                assert(join_char(rest, c) == rest[0]);
                assert(rest[0] == s.skip(1));
                assert(whole.len() == 1);
                assert(join_char(whole, c) == whole[0]);
                assert(whole[0] =~= seq![s[0]] + s.skip(1));
                assert(seq![s[0]] + s.skip(1) =~= s);
            } else {
                assert(whole.skip(1) =~~= rest.skip(1));
                assert(join_char(whole, c) == whole[0] + seq![c] + join_char(whole.skip(1), c));
                assert(join_char(rest, c) == rest[0] + seq![c] + join_char(rest.skip(1), c));
                assert(join_char(whole, c) =~= seq![s[0]] + (rest[0] + seq![c] + join_char(
                    rest.skip(1),
                    c,
                )));
                assert(join_char(whole, c) =~= seq![s[0]] + s.skip(1));
                assert(seq![s[0]] + s.skip(1) =~= s);
            }
        }
    }
}

/// How a forward scan relates to `split_char`: with no separator before
/// position `i` and one at `i` (or the end reached), the first piece is
/// `s[..i]` and the rest is the split of what follows the separator.
pub proof fn lemma_split_char_scan(s: Seq<char>, c: char, i: int)
    requires
        0 <= i <= s.len(),
        forall|k: int| 0 <= k < i ==> s[k] != c,
        i < s.len() ==> s[i] == c,
    ensures
        i == s.len() ==> split_char(s, c) == seq![s],
        i < s.len() ==> split_char(s, c) == seq![s.take(i)] + split_char(s.skip(i + 1), c),
    decreases i,
{
    if i == 0 {
        if i == s.len() {
            assert(split_char(s, c) =~~= seq![s]);
        } else {
            assert(s.take(0) =~= Seq::<char>::empty());
            assert(split_char(s, c) =~~= seq![s.take(0)] + split_char(s.skip(1), c));
            assert(s.skip(1) =~= s.skip(i + 1));
        }
    } else {
        let t = s.skip(1);
        assert(forall|k: int| 0 <= k < i - 1 ==> t[k] != c);
        lemma_split_char_scan(t, c, i - 1);
        lemma_split_char_len(t, c);
        let rest = split_char(t, c);
        if i == s.len() {
            assert(rest == seq![t]);
            assert(seq![s[0]] + rest[0] =~= s);
            assert(split_char(s, c) =~~= seq![s]);
        } else {
            assert(rest == seq![t.take(i - 1)] + split_char(t.skip(i), c));
            assert(rest[0] == t.take(i - 1));
            assert(seq![s[0]] + t.take(i - 1) =~= s.take(i));
            assert(rest.skip(1) =~~= split_char(t.skip(i), c));
            assert(t.skip(i) =~= s.skip(i + 1));
            assert(split_char(s, c) =~~= seq![s.take(i)] + split_char(s.skip(i + 1), c));
        }
    }
}

/// A whitespace character removed by trimming: space, tab or carriage
/// return.
pub open spec fn is_space(ch: char) -> bool {
    ch == ' ' || ch == '\t' || ch == '\r'
}

/// `s` with leading whitespace removed.
pub open spec fn trim_front(s: Seq<char>) -> Seq<char>
    decreases s.len(),
{
    if s.len() > 0 && is_space(s[0]) {
        trim_front(s.skip(1))
    } else {
        s
    }
}

/// `s` with trailing whitespace removed.
pub open spec fn trim_back(s: Seq<char>) -> Seq<char>
    decreases s.len(),
{
    if s.len() > 0 && is_space(s.last()) {
        trim_back(s.drop_last())
    } else {
        s
    }
}

/// `s` with whitespace removed from both ends.
pub open spec fn trim_text(s: Seq<char>) -> Seq<char> {
    trim_back(trim_front(s))
}

pub proof fn lemma_trim_front_scan(s: Seq<char>, a: int)
    requires
        0 <= a <= s.len(),
        forall|k: int| 0 <= k < a ==> is_space(s[k]),
        a < s.len() ==> !is_space(s[a]),
    ensures
        trim_front(s) == s.skip(a),
    decreases a,
{
    if a == 0 {
        if s.len() == 0 {
            assert(trim_front(s) =~= s.skip(0));
        } else {
            assert(trim_front(s) =~= s.skip(0));
        }
    } else {
        lemma_trim_front_scan(s.skip(1), a - 1);
        assert(s.skip(1).skip(a - 1) =~= s.skip(a));
    }
}

pub proof fn lemma_trim_back_scan(s: Seq<char>, b: int)
    requires
        0 <= b <= s.len(),
        forall|k: int| b <= k < s.len() ==> is_space(s[k]),
        b > 0 ==> !is_space(s[b - 1]),
    ensures
        trim_back(s) == s.take(b),
    decreases s.len() - b,
{
    if b == s.len() {
        if s.len() == 0 {
            assert(trim_back(s) =~= s.take(b));
        } else if !is_space(s.last()) {
            assert(trim_back(s) =~= s.take(b));
        } else {
            assert(b > 0 && !is_space(s[b - 1]));
            assert(false);
        }
    } else {
        assert(is_space(s.last()));
        lemma_trim_back_scan(s.drop_last(), b);
        assert(s.drop_last().take(b) =~= s.take(b));
    }
}

/// Lexicographic order on character sequences, by character code.
pub open spec fn chars_le(a: Seq<char>, b: Seq<char>) -> bool
    decreases a.len(),
{
    if a.len() == 0 {
        true
    } else if b.len() == 0 {
        false
    } else if a[0] == b[0] {
        chars_le(a.skip(1), b.skip(1))
    } else {
        (a[0] as int) < (b[0] as int)
    }
}

/// Lexicographic order on label sequences: labels are compared as
/// character sequences; a prefix precedes its extensions.
pub open spec fn label_seq_le(x: Seq<Seq<char>>, y: Seq<Seq<char>>) -> bool
    decreases x.len(),
{
    if x.len() == 0 {
        true
    } else if y.len() == 0 {
        false
    } else if x[0] == y[0] {
        label_seq_le(x.skip(1), y.skip(1))
    } else {
        chars_le(x[0], y[0])
    }
}

/// The dot-separated labels of a domain.
pub open spec fn labels_of(s: Seq<char>) -> Seq<Seq<char>> {
    split_char(s, '.')
}

/// The comparison key of a domain: its labels from the top-level domain
/// inward.
pub open spec fn sort_key(s: Seq<char>) -> Seq<Seq<char>> {
    labels_of(s).reverse()
}

/// The loader's order on domains: lexicographic on reversed label
/// sequences.
pub open spec fn domain_le(a: Seq<char>, b: Seq<char>) -> bool {
    label_seq_le(sort_key(a), sort_key(b))
}

pub proof fn lemma_chars_le_total(a: Seq<char>, b: Seq<char>)
    ensures
        chars_le(a, b) || chars_le(b, a),
        chars_le(a, b) && chars_le(b, a) ==> a == b,
    decreases a.len(),
{
    if a.len() > 0 && b.len() > 0 && a[0] == b[0] {
        lemma_chars_le_total(a.skip(1), b.skip(1));
        if chars_le(a, b) && chars_le(b, a) {
            assert(a.skip(1) == b.skip(1));
            lemma_head_tail_eq(a, b);
        }
    }
}

pub proof fn lemma_chars_le_trans(a: Seq<char>, b: Seq<char>, c: Seq<char>)
    requires
        chars_le(a, b),
        chars_le(b, c),
    ensures
        chars_le(a, c),
    decreases a.len(),
{
    if a.len() > 0 && b.len() > 0 && c.len() > 0 {
        if a[0] == b[0] && b[0] == c[0] {
            lemma_chars_le_trans(a.skip(1), b.skip(1), c.skip(1));
        }
    }
}

pub proof fn lemma_label_seq_le_total(x: Seq<Seq<char>>, y: Seq<Seq<char>>)
    ensures
        label_seq_le(x, y) || label_seq_le(y, x),
        label_seq_le(x, y) && label_seq_le(y, x) ==> x == y,
    decreases x.len(),
{
    if x.len() > 0 && y.len() > 0 {
        if x[0] == y[0] {
            lemma_label_seq_le_total(x.skip(1), y.skip(1));
            if label_seq_le(x, y) && label_seq_le(y, x) {
                assert(x.skip(1) == y.skip(1));
                lemma_head_tail_eq(x, y);
            }
        } else {
            lemma_chars_le_total(x[0], y[0]);
        }
    }
}

pub proof fn lemma_label_seq_le_trans(x: Seq<Seq<char>>, y: Seq<Seq<char>>, z: Seq<Seq<char>>)
    requires
        label_seq_le(x, y),
        label_seq_le(y, z),
    ensures
        label_seq_le(x, z),
    decreases x.len(),
{
    if x.len() > 0 && y.len() > 0 && z.len() > 0 {
        if x[0] == y[0] && y[0] == z[0] {
            lemma_label_seq_le_trans(x.skip(1), y.skip(1), z.skip(1));
        } else if x[0] == y[0] {
            assert(label_seq_le(x, z));
        } else if y[0] == z[0] {
            assert(label_seq_le(x, z));
        } else {
            lemma_chars_le_trans(x[0], y[0], z[0]);
            lemma_chars_le_total(x[0], y[0]);
            lemma_chars_le_total(y[0], z[0]);
            if x[0] == z[0] {
                assert(chars_le(z[0], y[0]) && chars_le(y[0], z[0]));
                assert(false);
            }
        }
    }
}

/// The loader's order is total.
pub proof fn lemma_domain_le_total(a: Seq<char>, b: Seq<char>)
    ensures
        domain_le(a, b) || domain_le(b, a),
{
    lemma_label_seq_le_total(sort_key(a), sort_key(b));
}

/// The loader's order is transitive.
pub proof fn lemma_domain_le_trans(a: Seq<char>, b: Seq<char>, c: Seq<char>)
    requires
        domain_le(a, b),
        domain_le(b, c),
    ensures
        domain_le(a, c),
{
    lemma_label_seq_le_trans(sort_key(a), sort_key(b), sort_key(c));
}

/// The loader's order is antisymmetric: two domains each preceding the
/// other are the same domain.
pub proof fn lemma_domain_le_antisym(a: Seq<char>, b: Seq<char>)
    requires
        domain_le(a, b),
        domain_le(b, a),
    ensures
        a == b,
{
    lemma_label_seq_le_total(sort_key(a), sort_key(b));
    assert(sort_key(a) == sort_key(b));
    assert(labels_of(a) =~= sort_key(a).reverse());
    assert(labels_of(b) =~= sort_key(b).reverse());
    lemma_join_split(a, '.');
    lemma_join_split(b, '.');
}

/// Each line trimmed, empty lines dropped.
pub open spec fn kept_lines(ls: Seq<Seq<char>>) -> Seq<Seq<char>>
    decreases ls.len(),
{
    if ls.len() == 0 {
        Seq::empty()
    } else {
        kept_lines(ls.drop_last()) + (if trim_text(ls.last()).len() > 0 {
            seq![trim_text(ls.last())]
        } else {
            Seq::empty()
        })
    }
}

/// Only the first occurrence of each name kept.
pub open spec fn dedup_first(ds: Seq<Seq<char>>) -> Seq<Seq<char>>
    decreases ds.len(),
{
    if ds.len() == 0 {
        Seq::empty()
    } else {
        dedup_first(ds.drop_last()) + (if ds.drop_last().contains(ds.last()) {
            Seq::empty()
        } else {
            seq![ds.last()]
        })
    }
}

/// The working set a raw text blob yields: lines trimmed, empties dropped,
/// duplicates removed, first occurrences kept.
pub open spec fn domain_list_of(text: Seq<char>) -> Seq<Seq<char>> {
    dedup_first(kept_lines(split_char(text, '\n')))
}

/// Whether the names are in the loader's order.
pub open spec fn sorted_by_domain(ds: Seq<Seq<char>>) -> bool {
    forall|i: int, j: int| 0 <= i < j < ds.len() ==> domain_le(ds[i], ds[j])
}

/// The loader's order is reflexive.
pub proof fn lemma_domain_le_refl(a: Seq<char>)
    ensures
        domain_le(a, a),
{
    lemma_label_seq_le_total(sort_key(a), sort_key(a));
}

/// Sorting law: a sorted arrangement of a collection of domains is unique,
/// so sorting is idempotent — sorting an already-sorted list yields the
/// same list.
pub proof fn lemma_sorted_permutation_unique(a: Seq<Seq<char>>, b: Seq<Seq<char>>)
    requires
        sorted_by_domain(a),
        sorted_by_domain(b),
        a.to_multiset() == b.to_multiset(),
    ensures
        a == b,
    decreases a.len(),
{
    broadcast use vstd::seq_lib::group_to_multiset_ensures;

    assert(a.len() == a.to_multiset().len());
    assert(b.len() == b.to_multiset().len());
    if a.len() == 0 {
        assert(a =~~= b);
    } else {
        assert(a.contains(a[0]));
        assert(a.to_multiset().count(a[0]) > 0);
        assert(b.contains(a[0]));
        let kb = choose|k: int| 0 <= k < b.len() && b[k] == a[0];
        assert(b.contains(b[0]));
        assert(b.to_multiset().count(b[0]) > 0);
        assert(a.to_multiset().count(b[0]) > 0);
        assert(a.contains(b[0]));
        let ka = choose|k: int| 0 <= k < a.len() && a[k] == b[0];
        if kb > 0 {
            assert(domain_le(b[0], b[kb]));
        } else {
            lemma_domain_le_refl(b[0]);
        }
        if ka > 0 {
            assert(domain_le(a[0], a[ka]));
        } else {
            lemma_domain_le_refl(a[0]);
        }
        lemma_domain_le_antisym(a[0], b[0]);
        assert(a[0] == b[0]);
        let a1 = a.remove(0);
        let b1 = b.remove(0);
        assert(a1.to_multiset() == a.to_multiset().remove(a[0]));
        assert(b1.to_multiset() == b.to_multiset().remove(b[0]));
        assert(a1.to_multiset() == b1.to_multiset());
        assert(sorted_by_domain(a1)) by {
            assert forall|i: int, j: int| 0 <= i < j < a1.len() implies domain_le(
                a1[i],
                a1[j],
            ) by {
                assert(a1[i] == a[i + 1]);
                assert(a1[j] == a[j + 1]);
            }
        }
        assert(sorted_by_domain(b1)) by {
            assert forall|i: int, j: int| 0 <= i < j < b1.len() implies domain_le(
                b1[i],
                b1[j],
            ) by {
                assert(b1[i] == b[i + 1]);
                assert(b1[j] == b[j + 1]);
            }
        }
        lemma_sorted_permutation_unique(a1, b1);
        assert forall|k: int| 0 <= k < a.len() implies a[k] == b[k] by {
            if k > 0 {
                assert(a[k] == a1[k - 1]);
                assert(b[k] == b1[k - 1]);
            }
        }
        assert(a =~~= b);
    }
}

/// Whether a character is trimmed away.
fn is_space_char(c: char) -> (r: bool)
    ensures
        r == is_space(c),
{
    c == ' ' || c == '\t' || c == '\r'
}

/// Trims whitespace from both ends of a line.
pub fn trim_str(s: &str) -> (r: String)
    ensures
        r@ == trim_text(s@),
{
    let n = s.unicode_len();
    let mut a: usize = 0;
    while a < n && is_space_char(s.get_char(a))
        invariant
            a <= n,
            n == s@.len(),
            forall|k: int| 0 <= k < a ==> is_space(s@[k]),
        decreases n - a,
    {
        a = a + 1;
    }
    let mut b: usize = n;
    while b > a && is_space_char(s.get_char(b - 1))
        invariant
            a <= b <= n,
            n == s@.len(),
            forall|k: int| b <= k < n ==> is_space(s@[k]),
        decreases b,
    {
        b = b - 1;
    }
    proof {
        lemma_trim_front_scan(s@, a as int);
        let t = s@.skip(a as int);
        assert(forall|k: int| b - a <= k < t.len() ==> is_space(t[k]));
        lemma_trim_back_scan(t, b - a);
        assert(t.take(b - a) =~= s@.subrange(a as int, b as int));
    }
    String::from_str(s.substring_char(a, b))
}

/// Splits text at every occurrence of the separator.
fn split_on(s: &str, sep: char) -> (r: Vec<String>)
    ensures
        names_view(r@) == split_char(s@, sep),
{
    let n = s.unicode_len();
    let mut r: Vec<String> = Vec::new();
    let mut pos: usize = 0;
    proof {
        assert(s@.skip(0) =~= s@);
        assert(names_view(r@) + split_char(s@, sep) =~~= split_char(s@, sep));
    }
    loop
        invariant_except_break
            pos <= n,
            n == s@.len(),
            split_char(s@, sep) == names_view(r@) + split_char(s@.skip(pos as int), sep),
        ensures
            names_view(r@) == split_char(s@, sep),
        decreases n - pos,
    {
        let mut j = pos;
        while j < n && s.get_char(j) != sep
            invariant
                pos <= j <= n,
                n == s@.len(),
                forall|k: int| pos <= k < j ==> s@[k] != sep,
            decreases n - j,
        {
            j = j + 1;
        }
        let ghost r_before = r@;
        r.push(String::from_str(s.substring_char(pos, j)));
        proof {
            let suffix = s@.skip(pos as int);
            assert(forall|k: int| 0 <= k < j - pos ==> suffix[k] != sep);
            lemma_split_char_scan(suffix, sep, j - pos);
            assert(names_view(r@) =~~= names_view(r_before).push(s@.subrange(pos as int, j as int)));
            assert(suffix.take(j - pos) =~= s@.subrange(pos as int, j as int));
            if j == n {
                assert(suffix =~= s@.subrange(pos as int, j as int));
                assert(split_char(suffix, sep) == seq![suffix]);
                assert(names_view(r@) =~~= names_view(r_before) + split_char(suffix, sep));
                assert(names_view(r@) =~~= split_char(s@, sep));
            } else {
                assert(suffix[j - pos] == s@[j as int]);
                assert(split_char(suffix, sep) == seq![suffix.take(j - pos)] + split_char(
                    suffix.skip(j - pos + 1),
                    sep,
                ));
                assert(suffix.skip(j - pos + 1) =~= s@.skip(j + 1));
                assert(names_view(r@) + split_char(s@.skip(j + 1), sep) =~~= names_view(r_before)
                    + split_char(suffix, sep));
            }
        }
        if j == n {
            break;
        }
        pos = j + 1;
    }
    r
}

/// Lexicographic comparison of two pieces of text by character code.
fn chars_le_exec(a: &str, b: &str) -> (r: bool)
    ensures
        r == chars_le(a@, b@),
{
    let la = a.unicode_len();
    let lb = b.unicode_len();
    let mut k: usize = 0;
    proof {
        assert(a@.skip(0) =~= a@);
        assert(b@.skip(0) =~= b@);
    }
    while k < la && k < lb && a.get_char(k) == b.get_char(k)
        invariant
            k <= la,
            k <= lb,
            la == a@.len(),
            lb == b@.len(),
            chars_le(a@, b@) == chars_le(a@.skip(k as int), b@.skip(k as int)),
        decreases la - k,
    {
        proof {
            let x = a@.skip(k as int);
            let y = b@.skip(k as int);
            assert(x[0] == a@[k as int] && y[0] == b@[k as int]);
            assert(chars_le(x, y) == chars_le(x.skip(1), y.skip(1)));
            assert(x.skip(1) =~= a@.skip(k + 1));
            assert(y.skip(1) =~= b@.skip(k + 1));
        }
        k = k + 1;
    }
    if k == la {
        true
    } else if k == lb {
        false
    } else {
        let ca = a.get_char(k);
        let cb = b.get_char(k);
        proof {
            let x = a@.skip(k as int);
            let y = b@.skip(k as int);
            assert(x[0] == a@[k as int] && y[0] == b@[k as int]);
        }
        (ca as u32) < (cb as u32)
    }
}

/// Compares two domains in the loader's order: label by label from the
/// top-level domain inward.
pub fn domain_le_exec(a: &str, b: &str) -> (r: bool)
    ensures
        r == domain_le(a@, b@),
{
    let la = split_on(a, '.');
    let lb = split_on(b, '.');
    let ghost ka = sort_key(a@);
    let ghost kb = sort_key(b@);
    proof {
        assert(ka =~~= names_view(la@).reverse());
        assert(kb =~~= names_view(lb@).reverse());
    }
    let na = la.len();
    let nb = lb.len();
    let mut k: usize = 0;
    proof {
        assert(ka.skip(0) =~~= ka);
        assert(kb.skip(0) =~~= kb);
    }
    while k < na && k < nb && la[na - 1 - k].eq(&lb[nb - 1 - k])
        invariant
            k <= na,
            k <= nb,
            na == la@.len(),
            nb == lb@.len(),
            ka == names_view(la@).reverse(),
            kb == names_view(lb@).reverse(),
            domain_le(a@, b@) == label_seq_le(ka.skip(k as int), kb.skip(k as int)),
        decreases na - k,
    {
        proof {
            let x = ka.skip(k as int);
            let y = kb.skip(k as int);
            assert(x[0] == ka[k as int] && y[0] == kb[k as int]);
            assert(ka[k as int] == la@[na - 1 - k]@);
            assert(kb[k as int] == lb@[nb - 1 - k]@);
            assert(x[0] == y[0]);
            assert(label_seq_le(x, y) == label_seq_le(x.skip(1), y.skip(1)));
            assert(x.skip(1) =~~= ka.skip(k + 1));
            assert(y.skip(1) =~~= kb.skip(k + 1));
        }
        k = k + 1;
    }
    if k == na {
        true
    } else if k == nb {
        false
    } else {
        proof {
            let x = ka.skip(k as int);
            let y = kb.skip(k as int);
            assert(x[0] == ka[k as int] && y[0] == kb[k as int]);
            assert(ka[k as int] == la@[na - 1 - k]@);
            assert(kb[k as int] == lb@[nb - 1 - k]@);
            assert(x[0] != y[0]);
            assert(label_seq_le(x, y) == chars_le(x[0], y[0]));
        }
        chars_le_exec(la[na - 1 - k].as_str(), lb[nb - 1 - k].as_str())
    }
}

/// Sorts domains into the loader's order; the result is a sorted
/// rearrangement of the input.
pub fn sort_domains(list: &Vec<String>) -> (r: Vec<String>)
    ensures
        sorted_by_domain(names_view(r@)),
        names_view(r@).to_multiset() == names_view(list@).to_multiset(),
{
    broadcast use vstd::seq_lib::group_to_multiset_ensures;

    let mut r: Vec<String> = Vec::new();
    let mut i: usize = 0;
    while i < list.len()
        invariant
            i <= list.len(),
            sorted_by_domain(names_view(r@)),
            names_view(r@).to_multiset() == names_view(list@.take(i as int)).to_multiset(),
        decreases list.len() - i,
    {
        broadcast use vstd::seq_lib::group_to_multiset_ensures;

        let x = list[i].clone();
        let mut pos: usize = 0;
        while pos < r.len() && domain_le_exec(r[pos].as_str(), x.as_str())
            invariant
                pos <= r.len(),
                forall|k: int| 0 <= k < pos ==> domain_le(names_view(r@)[k], x@),
            decreases r.len() - pos,
        {
            pos = pos + 1;
        }
        let ghost old_names = names_view(r@);
        let ghost xv = x@;
        proof {
            if pos < r.len() {
                lemma_domain_le_total(old_names[pos as int], xv);
            }
        }
        r.insert(pos, x);
        i = i + 1;
        proof {
            let new_names = names_view(r@);
            assert(new_names =~~= old_names.insert(pos as int, xv));
            assert forall|p: int, q: int| 0 <= p < q < new_names.len() implies domain_le(
                new_names[p],
                new_names[q],
            ) by {
                let np = if p < pos { old_names[p] } else if p == pos { xv } else {
                    old_names[p - 1]
                };
                let nq = if q < pos { old_names[q] } else if q == pos { xv } else {
                    old_names[q - 1]
                };
                assert(new_names[p] == np);
                assert(new_names[q] == nq);
                if q < pos {
                } else if p < pos && q == pos {
                } else if p < pos && q > pos {
                    if p < q - 1 {
                    } else {
                        assert(p == pos - 1 && q == pos + 1);
                        lemma_domain_le_trans(old_names[p], xv, old_names[q - 1]);
                    }
                } else if p == pos && q > pos {
                    if q - 1 > pos {
                        lemma_domain_le_trans(xv, old_names[pos as int], old_names[q - 1]);
                    }
                }
            }
            let s1 = old_names.subrange(0, pos as int);
            let s2 = old_names.subrange(pos as int, old_names.len() as int);
            assert(new_names == s1.push(xv) + s2);
            vstd::seq_lib::lemma_multiset_commutative(s1.push(xv), s2);
            vstd::seq_lib::lemma_multiset_commutative(s1, s2);
            assert(s1 + s2 =~~= old_names);
            assert((s1.push(xv)).to_multiset() =~= s1.to_multiset().insert(xv));
            assert(new_names.to_multiset() =~= old_names.to_multiset().insert(xv)) by {
                broadcast use vstd::multiset::group_multiset_axioms;
            }
            assert(names_view(list@.take(i as int)) =~~= names_view(
                list@.take(i - 1),
            ).push(xv));
            assert(names_view(list@.take(i as int)).to_multiset() =~= names_view(
                list@.take(i - 1),
            ).to_multiset().insert(xv));
        }
    }
    proof {
        assert(list@.take(list@.len() as int) =~= list@);
    }
    r
}

/// Loads the working set from raw newline-separated text: trims each line,
/// drops empty lines, keeps the first occurrence of each domain, and sorts
/// by reversed label order. The result is the sorted arrangement of
/// exactly the names `domain_list_of` describes.
pub fn load_domains(text: &str) -> (r: Vec<String>)
    ensures
        sorted_by_domain(names_view(r@)),
        names_view(r@).no_duplicates(),
        names_view(r@).to_multiset() == domain_list_of(text@).to_multiset(),
{
    let lines = split_on(text, '\n');
    let mut cleaned: Vec<String> = Vec::new();
    let mut i: usize = 0;
    while i < lines.len()
        invariant
            i <= lines.len(),
            names_view(cleaned@) == kept_lines(names_view(lines@).take(i as int)),
        decreases lines.len() - i,
    {
        let ghost prefix = names_view(lines@).take(i as int);
        let ghost cleaned_before = names_view(cleaned@);
        let t = trim_str(lines[i].as_str());
        if t.as_str().unicode_len() > 0 {
            cleaned.push(t);
        }
        i = i + 1;
        proof {
            let next = names_view(lines@).take(i as int);
            assert(next.drop_last() =~~= prefix);
            assert(next.last() == names_view(lines@)[i - 1]);
            assert(names_view(cleaned@) =~~= kept_lines(next));
        }
    }
    proof {
        assert(names_view(lines@).take(lines@.len() as int) =~~= names_view(lines@));
    }
    let mut unique: Vec<String> = Vec::new();
    let mut j: usize = 0;
    while j < cleaned.len()
        invariant
            j <= cleaned.len(),
            names_view(unique@) == dedup_first(names_view(cleaned@).take(j as int)),
            names_view(unique@).no_duplicates(),
            forall|x: Seq<char>|
                contains_name(names_view(unique@), x) == names_view(cleaned@).take(
                    j as int,
                ).contains(x),
        decreases cleaned.len() - j,
    {
        let ghost prefix = names_view(cleaned@).take(j as int);
        let ghost unique_before = names_view(unique@);
        let seen = contains_string(&unique, &cleaned[j]);
        if !seen {
            unique.push(cleaned[j].clone());
        }
        j = j + 1;
        proof {
            let next = names_view(cleaned@).take(j as int);
            assert(next.drop_last() =~~= prefix);
            assert(next.last() == names_view(cleaned@)[j - 1]);
            if seen {
                let m = choose|m: int| 0 <= m < prefix.len() && prefix[m] == next.last();
                assert(prefix.contains(next.last()));
                assert(names_view(unique@) =~~= dedup_first(next));
            } else {
                if prefix.contains(next.last()) {
                    let m = choose|m: int| 0 <= m < prefix.len() && prefix[m] == next.last();
                    assert(contains_name(unique_before, prefix[m]));
                    assert(false);
                }
                assert(names_view(unique@) =~~= unique_before.push(next.last()));
                assert(names_view(unique@) =~~= dedup_first(next));
                assert forall|p: int, q: int|
                    0 <= p < q < names_view(unique@).len() implies names_view(unique@)[p]
                    != names_view(unique@)[q] by {
                    if q == names_view(unique@).len() - 1 {
                        assert(names_view(unique@)[p] == unique_before[p]);
                        if unique_before[p] == next.last() {
                            assert(contains_name(unique_before, next.last()));
                        }
                    } else {
                        assert(names_view(unique@)[p] == unique_before[p]);
                        assert(names_view(unique@)[q] == unique_before[q]);
                    }
                }
            }
            assert forall|x: Seq<char>|
                contains_name(names_view(unique@), x) == next.contains(x) by {
                if contains_name(names_view(unique@), x) {
                    let k = choose|k: int|
                        0 <= k < names_view(unique@).len() && names_view(unique@)[k] == x;
                    if k < unique_before.len() {
                        assert(contains_name(unique_before, x));
                        assert(prefix.contains(x));
                        let m = choose|m: int| 0 <= m < prefix.len() && prefix[m] == x;
                        assert(next[m] == x);
                    } else {
                        assert(names_view(unique@)[k] == next.last());
                        assert(next[next.len() - 1] == x);
                    }
                }
                if next.contains(x) {
                    let m = choose|m: int| 0 <= m < next.len() && next[m] == x;
                    if m < next.len() - 1 {
                        assert(prefix[m] == x);
                        assert(prefix.contains(x));
                        assert(contains_name(unique_before, x));
                        let k = choose|k: int|
                            0 <= k < unique_before.len() && unique_before[k] == x;
                        assert(names_view(unique@)[k] == x);
                    } else {
                        if seen {
                            assert(prefix.contains(next.last()));
                            assert(contains_name(unique_before, x));
                            let k = choose|k: int|
                                0 <= k < unique_before.len() && unique_before[k] == x;
                            assert(names_view(unique@)[k] == x);
                        } else {
                            assert(names_view(unique@)[names_view(unique@).len() - 1] == x);
                        }
                    }
                }
            }
        }
    }
    proof {
        assert(names_view(cleaned@).take(cleaned@.len() as int) =~~= names_view(cleaned@));
    }
    let sorted = sort_domains(&unique);
    proof {
        names_view(unique@).lemma_multiset_has_no_duplicates();
        names_view(sorted@).lemma_multiset_has_no_duplicates_conv();
    }
    sorted
}

} // verus!
