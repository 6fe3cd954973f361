//! Word frequency tables.
use vstd::prelude::*;
use vstd::string::*;
use crate::text::chars_of;

verus! {

broadcast use vstd::seq_lib::group_to_multiset_ensures;

/// Unicode's `White_Space` characters.
pub open spec fn is_white(c: char) -> bool {
    let u = c as u32;
    ||| 0x09 <= u <= 0x0D
    ||| u == 0x20
    ||| u == 0x85
    ||| u == 0xA0
    ||| u == 0x1680
    ||| 0x2000 <= u <= 0x200A
    ||| u == 0x2028
    ||| u == 0x2029
    ||| u == 0x202F
    ||| u == 0x205F
    ||| u == 0x3000
}

/// Whether `c` separates words.
pub fn is_white_char(c: char) -> (r: bool)
    ensures
        r == is_white(c),
{
    let u = c as u32;
    (0x09 <= u && u <= 0x0D) || u == 0x20 || u == 0x85 || u == 0xA0 || u == 0x1680 || (0x2000
        <= u && u <= 0x200A) || u == 0x2028 || u == 0x2029 || u == 0x202F || u == 0x205F || u
        == 0x3000
}

/// Scanning `s` from the left: the words completed so far, and the word
/// under way.
pub open spec fn scan_words(s: Seq<char>) -> (Seq<Seq<char>>, Seq<char>)
    decreases s.len(),
{
    if s.len() == 0 {
        (Seq::empty(), Seq::empty())
    } else {
        let (done, cur) = scan_words(s.drop_last());
        let c = s.last();
        if is_white(c) {
            if cur.len() > 0 {
                (done.push(cur), Seq::empty())
            } else {
                (done, cur)
            }
        } else {
            (done, cur.push(c))
        }
    }
}

/// The words of `s`: its maximal runs of characters that are not white space,
/// in order.
pub open spec fn words(s: Seq<char>) -> Seq<Seq<char>> {
    let (done, cur) = scan_words(s);
    if cur.len() > 0 {
        done.push(cur)
    } else {
        done
    }
}

/// Some entry of `counts` is for the word `w`.
pub open spec fn has_key(counts: Seq<(String, usize)>, w: Seq<char>) -> bool {
    exists|j: int| 0 <= j < counts.len() && #[trigger] counts[j].0@ == w
}

/// `counts` holds one entry per distinct word of `ws`, with the number of
/// times it occurs there.
pub open spec fn tallies(counts: Seq<(String, usize)>, ws: Seq<Seq<char>>) -> bool {
    &&& forall|a: int, b: int|
        0 <= a < b < counts.len() ==> (#[trigger] counts[a]).0@ != (#[trigger] counts[b]).0@
    &&& forall|j: int|
        0 <= j < counts.len() ==> {
            &&& (#[trigger] counts[j]).1 == ws.to_multiset().count(counts[j].0@)
            &&& ws.contains(counts[j].0@)
        }
    &&& forall|k: int| 0 <= k < ws.len() ==> has_key(counts, #[trigger] ws[k])
}

fn tally(counts: &mut Vec<(String, usize)>, w: String, Ghost(ws): Ghost<Seq<Seq<char>>>)
    requires
        tallies(old(counts)@, ws),
        ws.len() < usize::MAX,
        forall|j: int| 0 <= j < old(counts)@.len() ==> #[trigger] old(counts)@[j].1 <= ws.len(),
    ensures
        tallies(final(counts)@, ws.push(w@)),
        forall|j: int| 0 <= j < final(counts)@.len() ==> #[trigger] final(counts)@[j].1 <= ws.len() + 1,
{
    let ghost ws2 = ws.push(w@);
    assert(ws2.to_multiset() == ws.to_multiset().insert(w@));
    let mut j: usize = 0;
    while j < counts.len()
        invariant
            counts@ == old(counts)@,
            j <= counts@.len(),
            ws2 == ws.push(w@),
            tallies(counts@, ws),
            ws.len() < usize::MAX,
            forall|i: int| 0 <= i < counts@.len() ==> #[trigger] counts@[i].1 <= ws.len(),
            forall|k: int| 0 <= k < j ==> (#[trigger] counts@[k]).0@ != w@,
        decreases counts@.len() - j,
    {
        if counts[j].0 == w {
            let ghost before = counts@;
            let n = counts[j].1 + 1;
            let key = counts[j].0.clone();
            counts.set(j, (key, n));
            assert forall|k: int| 0 <= k < ws2.len() implies has_key(counts@, #[trigger] ws2[k]) by {
                if k == ws.len() {
                    assert(counts@[j as int].0@ == ws2[k]);
                } else {
                    assert(ws2[k] == ws[k]);
                    let i = choose|i: int| 0 <= i < before.len() && #[trigger] before[i].0@ == ws[k];
                    assert(counts@[i].0@ == ws2[k]);
                }
            }
            assert forall|i: int| 0 <= i < counts@.len() implies {
                &&& (#[trigger] counts@[i]).1 == ws2.to_multiset().count(counts@[i].0@)
                &&& ws2.contains(counts@[i].0@)
            } by {
                assert(before[i].0@ == counts@[i].0@);
                if i == j {
                    assert(counts@[i].0@ == w@);
                } else {
                    assert(before[i].0@ != before[j as int].0@);
                    assert(counts@[i] == before[i]);
                }
                assert(ws.contains(before[i].0@));
                let t = choose|t: int| 0 <= t < ws.len() && ws[t] == before[i].0@;
                assert(ws2[t] == ws[t]);
            }
            assert forall|a: int, b: int| 0 <= a < b < counts@.len() implies (#[trigger] counts@[a]).0@
                != (#[trigger] counts@[b]).0@ by {
                assert(before[a].0@ == counts@[a].0@);
                assert(before[b].0@ == counts@[b].0@);
            }
            assert(tallies(counts@, ws2));
            return;
        }
        j = j + 1;
    }
    proof {
        if ws.contains(w@) {
            let t = choose|t: int| 0 <= t < ws.len() && ws[t] == w@;
            let i = choose|i: int| 0 <= i < counts@.len() && #[trigger] counts@[i].0@ == ws[t];
            assert(counts@[i].0@ != w@);
        }
    }
    let ghost before = counts@;
    counts.push((w, 1));
    assert forall|k: int| 0 <= k < ws2.len() implies has_key(counts@, #[trigger] ws2[k]) by {
        if k == ws.len() {
            assert(counts@[before.len() as int].0@ == ws2[k]);
        } else {
            assert(ws2[k] == ws[k]);
            let i = choose|i: int| 0 <= i < before.len() && #[trigger] before[i].0@ == ws[k];
            assert(counts@[i].0@ == ws2[k]);
        }
    }
    assert forall|i: int| 0 <= i < counts@.len() implies {
        &&& (#[trigger] counts@[i]).1 == ws2.to_multiset().count(counts@[i].0@)
        &&& ws2.contains(counts@[i].0@)
    } by {
        if i < before.len() {
            assert(before[i] == counts@[i]);
            assert(ws.contains(before[i].0@));
            let t = choose|t: int| 0 <= t < ws.len() && ws[t] == before[i].0@;
            assert(ws2[t] == ws[t]);
        } else {
            assert(ws2[ws.len() as int] == w@);
        }
    }
}

} // verus!

verus! {

fn tally_words(input: &str) -> (r: Vec<(String, usize)>)
    ensures
        tallies(r@, words(input@)),
{
    let cs = chars_of(input);
    let n = cs.len();
    let mut counts: Vec<(String, usize)> = Vec::new();
    let ghost mut done: Seq<Seq<char>> = Seq::empty();
    let mut start: usize = 0;
    let mut i: usize = 0;
    assert(input@.take(0) =~= Seq::<char>::empty());
    assert(input@.subrange(0, 0) =~= Seq::<char>::empty());
    while i < n
        invariant
            n == input@.len(),
            cs@ == input@,
            start <= i <= n,
            scan_words(input@.take(i as int)) == (done, input@.subrange(start as int, i as int)),
            done.len() <= start,
            tallies(counts@, done),
            forall|j: int| 0 <= j < counts@.len() ==> #[trigger] counts@[j].1 <= done.len(),
        decreases n - i,
    {
        let c = cs[i];
        assert(input@.take(i + 1).drop_last() =~= input@.take(i as int));
        assert(input@.take(i + 1).last() == c);
        if is_white_char(c) {
            if start < i {
                let w = String::from_str(input.substring_char(start, i));
                tally(&mut counts, w, Ghost(done));
                proof {
                    done = done.push(w@);
                }
            }
            start = i + 1;
            assert(input@.subrange(start as int, i + 1) =~= Seq::<char>::empty());
        } else {
            assert(input@.subrange(start as int, i + 1) =~= input@.subrange(
                start as int,
                i as int,
            ).push(c));
        }
        i = i + 1;
    }
    assert(input@.take(n as int) =~= input@);
    if start < n {
        let w = String::from_str(input.substring_char(start, n));
        tally(&mut counts, w, Ghost(done));
    }
    counts
}

} // verus!

verus! {

/// `a` comes strictly before `b` in lexicographic order by code point, which
/// is the order of `String`s (their UTF-8 bytes order the same way).
pub open spec fn lex_lt(a: Seq<char>, b: Seq<char>) -> bool
    decreases a.len(),
{
    if a.len() == 0 {
        b.len() > 0
    } else if b.len() == 0 {
        false
    } else if a[0] != b[0] {
        (a[0] as int) < (b[0] as int)
    } else {
        lex_lt(a.drop_first(), b.drop_first())
    }
}

/// In the frequency table `x` is listed before `y`: it occurs more often, or
/// as often and its word is smaller.
pub open spec fn ranks_before(x: (Seq<char>, nat), y: (Seq<char>, nat)) -> bool {
    x.1 > y.1 || (x.1 == y.1 && lex_lt(x.0, y.0))
}

pub open spec fn entry_view(e: (String, usize)) -> (Seq<char>, nat) {
    (e.0@, e.1 as nat)
}

proof fn lemma_lex_total(a: Seq<char>, b: Seq<char>)
    requires
        a != b,
    ensures
        lex_lt(a, b) || lex_lt(b, a),
    decreases a.len(),
{
    if a.len() > 0 && b.len() > 0 && a[0] == b[0] {
        if a.drop_first() == b.drop_first() {
            assert(a =~= seq![a[0]] + a.drop_first());
            assert(b =~= seq![b[0]] + b.drop_first());
        }
        lemma_lex_total(a.drop_first(), b.drop_first());
    } else if a.len() == 0 && b.len() == 0 {
        assert(a =~= b);
    } else if a.len() > 0 && b.len() > 0 {
        assert((a[0] as int) != (b[0] as int));
    }
}

proof fn lemma_lex_trans(a: Seq<char>, b: Seq<char>, c: Seq<char>)
    requires
        lex_lt(a, b),
        lex_lt(b, c),
    ensures
        lex_lt(a, c),
    decreases a.len(),
{
    if a.len() > 0 && b.len() > 0 && c.len() > 0 && a[0] == b[0] && b[0] == c[0] {
        lemma_lex_trans(a.drop_first(), b.drop_first(), c.drop_first());
    }
}

proof fn lemma_ranks_total(x: (Seq<char>, nat), y: (Seq<char>, nat))
    requires
        x.0 != y.0,
    ensures
        ranks_before(x, y) || ranks_before(y, x),
{
    lemma_lex_total(x.0, y.0);
}

proof fn lemma_ranks_trans(x: (Seq<char>, nat), y: (Seq<char>, nat), z: (Seq<char>, nat))
    requires
        ranks_before(x, y),
        ranks_before(y, z),
    ensures
        ranks_before(x, z),
{
    if x.1 == y.1 && y.1 == z.1 {
        lemma_lex_trans(x.0, y.0, z.0);
    }
}

fn lex_less(a: &Vec<char>, b: &Vec<char>) -> (r: bool)
    ensures
        r == lex_lt(a@, b@),
{
    let mut i: usize = 0;
    assert(a@.skip(0) =~= a@);
    assert(b@.skip(0) =~= b@);
    while i < a.len() && i < b.len() && a[i] == b[i]
        invariant
            i <= a@.len(),
            i <= b@.len(),
            lex_lt(a@, b@) == lex_lt(a@.skip(i as int), b@.skip(i as int)),
        decreases a@.len() - i,
    {
        assert(a@.skip(i as int).drop_first() =~= a@.skip(i + 1));
        assert(b@.skip(i as int).drop_first() =~= b@.skip(i + 1));
        i = i + 1;
    }
    if i == a.len() {
        i < b.len()
    } else if i == b.len() {
        false
    } else {
        a[i] < b[i]
    }
}

fn ranks_before_exec(x: &(String, usize), y: &(String, usize)) -> (r: bool)
    ensures
        r == ranks_before(entry_view(*x), entry_view(*y)),
{
    if x.1 != y.1 {
        x.1 > y.1
    } else {
        lex_less(&chars_of(x.0.as_str()), &chars_of(y.0.as_str()))
    }
}

} // verus!

verus! {

/// No two entries share a word.
pub open spec fn keys_distinct(v: Seq<(String, usize)>) -> bool {
    forall|a: int, b: int| 0 <= a < b < v.len() ==> (#[trigger] v[a]).0@ != (#[trigger] v[b]).0@
}

/// The entries stand in table order: by descending count, then by word.
pub open spec fn in_table_order(v: Seq<(String, usize)>) -> bool {
    forall|i: int, j: int|
        0 <= i < j < v.len() ==> ranks_before(entry_view(#[trigger] v[i]), entry_view(#[trigger] v[j]))
}

/// Some entry of `v` is `e`.
pub open spec fn has_entry(v: Seq<(String, usize)>, e: (Seq<char>, nat)) -> bool {
    exists|j: int| 0 <= j < v.len() && entry_view(#[trigger] v[j]) == e
}

fn sort_table(counts: &Vec<(String, usize)>) -> (r: Vec<(String, usize)>)
    requires
        keys_distinct(counts@),
    ensures
        keys_distinct(r@),
        in_table_order(r@),
        forall|j: int| 0 <= j < counts@.len() ==> has_entry(r@, entry_view(#[trigger] counts@[j])),
        forall|k: int| 0 <= k < r@.len() ==> has_entry(counts@, entry_view(#[trigger] r@[k])),
{
    let mut r: Vec<(String, usize)> = Vec::new();
    let mut i: usize = 0;
    while i < counts.len()
        invariant
            i <= counts@.len(),
            keys_distinct(counts@),
            keys_distinct(r@),
            in_table_order(r@),
            forall|j: int| 0 <= j < i ==> has_entry(r@, entry_view(#[trigger] counts@[j])),
            forall|k: int|
                0 <= k < r@.len() ==> has_entry(counts@.take(i as int), entry_view(#[trigger] r@[k])),
        decreases counts@.len() - i,
    {
        let x = (counts[i].0.clone(), counts[i].1);
        assert(entry_view(x) == entry_view(counts@[i as int]));
        let mut p: usize = 0;
        while p < r.len() && !ranks_before_exec(&x, &r[p])
            invariant
                p <= r@.len(),
                forall|k: int| 0 <= k < p ==> !ranks_before(entry_view(x), entry_view(#[trigger] r@[k])),
            decreases r@.len() - p,
        {
            p = p + 1;
        }
        let ghost old_r = r@;
        // x's word differs from every word already placed
        assert forall|k: int| 0 <= k < old_r.len() implies (#[trigger] old_r[k]).0@ != x.0@ by {
            let j = choose|j: int|
                0 <= j < counts@.take(i as int).len() && entry_view(
                    #[trigger] counts@.take(i as int)[j],
                ) == entry_view(old_r[k]);
            assert(counts@[j] == counts@.take(i as int)[j]);
        }
        r.insert(p, x);
        assert(r@ == old_r.insert(p as int, x));
        assert forall|a: int, b: int| 0 <= a < b < r@.len() implies (#[trigger] r@[a]).0@ != (
        #[trigger] r@[b]).0@ by {
            if a < p && b < p {
                assert(r@[a] == old_r[a] && r@[b] == old_r[b]);
            } else if a < p && b == p {
                assert(r@[a] == old_r[a]);
            } else if a < p {
                assert(r@[a] == old_r[a] && r@[b] == old_r[b - 1]);
            } else if a == p {
                assert(r@[b] == old_r[b - 1]);
            } else {
                assert(r@[a] == old_r[a - 1] && r@[b] == old_r[b - 1]);
            }
        }
        assert forall|a: int, b: int| 0 <= a < b < r@.len() implies ranks_before(
            entry_view(#[trigger] r@[a]),
            entry_view(#[trigger] r@[b]),
        ) by {
            if a < p && b < p {
                assert(r@[a] == old_r[a] && r@[b] == old_r[b]);
            } else if a < p && b == p {
                assert(r@[a] == old_r[a]);
                lemma_ranks_total(entry_view(x), entry_view(old_r[a]));
            } else if a < p {
                assert(r@[a] == old_r[a] && r@[b] == old_r[b - 1]);
            } else if a == p {
                assert(r@[b] == old_r[b - 1]);
                if b - 1 > p {
                    assert(ranks_before(entry_view(old_r[p as int]), entry_view(old_r[b - 1])));
                    lemma_ranks_trans(
                        entry_view(x),
                        entry_view(old_r[p as int]),
                        entry_view(old_r[b - 1]),
                    );
                }
            } else {
                assert(r@[a] == old_r[a - 1] && r@[b] == old_r[b - 1]);
            }
        }
        assert forall|j: int| 0 <= j < i + 1 implies has_entry(
            r@,
            entry_view(#[trigger] counts@[j]),
        ) by {
            if j == i {
                assert(r@[p as int] == x);
            } else {
                let k = choose|k: int| 0 <= k < old_r.len() && entry_view(#[trigger] old_r[k])
                    == entry_view(counts@[j]);
                if k < p {
                    assert(r@[k] == old_r[k]);
                } else {
                    assert(r@[k + 1] == old_r[k]);
                }
            }
        }
        assert forall|k: int| 0 <= k < r@.len() implies has_entry(
            counts@.take(i + 1),
            entry_view(#[trigger] r@[k]),
        ) by {
            if k == p {
                assert(counts@.take(i + 1)[i as int] == counts@[i as int]);
            } else {
                let ok = if k < p { k } else { k - 1 };
                assert(r@[k] == old_r[ok]);
                let j = choose|j: int|
                    0 <= j < counts@.take(i as int).len() && entry_view(
                        #[trigger] counts@.take(i as int)[j],
                    ) == entry_view(old_r[ok]);
                assert(counts@.take(i + 1)[j] == counts@.take(i as int)[j]);
            }
        }
        i = i + 1;
    }
    assert(counts@.take(counts@.len() as int) =~= counts@);
    r
}

/// The frequency table of the words of `input`: one entry per distinct word,
/// with the number of times it occurs, most frequent first and words of equal
/// frequency in ascending order. Words are the maximal runs of characters
/// that are not white space; they are compared as they stand, case included.
pub fn count_words(input: &str) -> (r: Vec<(String, usize)>)
    ensures
        tallies(r@, words(input@)),
        in_table_order(r@),
{
    let counts = tally_words(input);
    let r = sort_table(&counts);
    proof {
        let ws = words(input@);
        assert forall|k: int| 0 <= k < r@.len() implies {
            &&& (#[trigger] r@[k]).1 == ws.to_multiset().count(r@[k].0@)
            &&& ws.contains(r@[k].0@)
        } by {
            let j = choose|j: int| 0 <= j < counts@.len() && entry_view(#[trigger] counts@[j])
                == entry_view(r@[k]);
            assert(counts@[j].1 == ws.to_multiset().count(counts@[j].0@));
        }
        assert forall|t: int| 0 <= t < ws.len() implies has_key(r@, #[trigger] ws[t]) by {
            let j = choose|j: int| 0 <= j < counts@.len() && #[trigger] counts@[j].0@ == ws[t];
            assert(has_entry(r@, entry_view(counts@[j])));
            let k = choose|k: int| 0 <= k < r@.len() && entry_view(#[trigger] r@[k])
                == entry_view(counts@[j]);
            assert(r@[k].0@ == ws[t]);
        }
    }
    r
}

} // verus!
