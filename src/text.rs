use vstd::prelude::*;

verus! {

/// Every non-overlapping occurrence of `f` in `s`, scanned from the left,
/// replaced by `t`. An empty pattern matches before every character and at
/// the end.
pub open spec fn replace_seq(s: Seq<char>, f: Seq<char>, t: Seq<char>) -> Seq<char>
    decreases s.len(),
{
    if f.len() == 0 {
        if s.len() == 0 {
            t
        } else {
            t + seq![s[0]] + replace_seq(s.drop_first(), f, t)
        }
    } else if s.len() < f.len() {
        s
    } else if s.take(f.len() as int) == f {
        t + replace_seq(s.skip(f.len() as int), f, t)
    } else {
        seq![s[0]] + replace_seq(s.drop_first(), f, t)
    }
}

/// The pairs applied one after the other, each to the output of the ones
/// before it.
pub open spec fn apply_seq(s: Seq<char>, pairs: Seq<(Seq<char>, Seq<char>)>) -> Seq<char>
    decreases pairs.len(),
{
    if pairs.len() == 0 {
        s
    } else {
        let p = pairs.last();
        replace_seq(apply_seq(s, pairs.drop_last()), p.0, p.1)
    }
}

/// The stored pairs as (from, to), swapped when `reverse` holds.
pub open spec fn directed(pairs: Seq<(String, String)>, reverse: bool) -> Seq<(Seq<char>, Seq<char>)> {
    Seq::new(
        pairs.len(),
        |i: int|
            if reverse {
                (pairs[i].1@, pairs[i].0@)
            } else {
                (pairs[i].0@, pairs[i].1@)
            },
    )
}

proof fn lemma_replace_absent(s: Seq<char>, t: Seq<char>, f: Seq<char>)
    requires
        t.len() > 0,
        !s.contains(t[0]),
    ensures
        replace_seq(s, t, f) == s,
    decreases s.len(),
{
    if s.len() >= t.len() {
        assert(s.take(t.len() as int)[0] == s[0]);
        assert(s.contains(s[0]));
        let d = s.drop_first();
        assert forall|i: int| 0 <= i < d.len() implies d[i] != t[0] by {
            assert(d[i] == s[i + 1]);
            assert(s.contains(s[i + 1]));
        }
        lemma_replace_absent(d, t, f);
        assert(s =~= seq![s[0]] + d);
    }
}

/// Substituting `f` by `t` and then `t` by `f` gives the text back, when
/// the first character of `t` does not occur in the text: every occurrence
/// of `t` in the output is then one that the first pass wrote.
pub proof fn lemma_round_trip(s: Seq<char>, f: Seq<char>, t: Seq<char>)
    requires
        f.len() > 0,
        t.len() > 0,
        !s.contains(t[0]),
    ensures
        replace_seq(replace_seq(s, f, t), t, f) == s,
    decreases s.len(),
{
    if s.len() < f.len() {
        lemma_replace_absent(s, t, f);
    } else {
        assert(s.contains(s[0]));
        if s.take(f.len() as int) == f {
            let rest = s.skip(f.len() as int);
            assert forall|i: int| 0 <= i < rest.len() implies rest[i] != t[0] by {
                assert(rest[i] == s[i + f.len()]);
                assert(s.contains(s[i + f.len()]));
            }
            lemma_round_trip(rest, f, t);
            let r = replace_seq(rest, f, t);
            let out = t + r;
            assert(out.take(t.len() as int) =~= t);
            assert(out.skip(t.len() as int) =~= r);
            assert(s =~= f + rest);
        } else {
            let d = s.drop_first();
            assert forall|i: int| 0 <= i < d.len() implies d[i] != t[0] by {
                assert(d[i] == s[i + 1]);
                assert(s.contains(s[i + 1]));
            }
            lemma_round_trip(d, f, t);
            let r = replace_seq(d, f, t);
            let out = seq![s[0]] + r;
            assert(out.drop_first() =~= r);
            if out.len() < t.len() {
                assert(replace_seq(r, t, f) == r);
            } else {
                assert(out.take(t.len() as int)[0] == s[0]);
            }
            assert(s =~= seq![s[0]] + d);
        }
    }
}

/// One stored pair applied forward and then in reverse gives the text back,
/// when the first character of its `replace` does not occur in the text and
/// both strings are non-empty.
pub proof fn lemma_apply_round_trip(s: Seq<char>, pairs: Seq<(String, String)>)
    requires
        pairs.len() == 1,
        pairs[0].0@.len() > 0,
        pairs[0].1@.len() > 0,
        !s.contains(pairs[0].1@[0]),
    ensures
        apply_seq(apply_seq(s, directed(pairs, false)), directed(pairs, true)) == s,
{
    let fw = directed(pairs, false);
    let bw = directed(pairs, true);
    assert(fw.drop_last() =~= Seq::<(Seq<char>, Seq<char>)>::empty());
    assert(bw.drop_last() =~= Seq::<(Seq<char>, Seq<char>)>::empty());
    assert(apply_seq(s, fw.drop_last()) == s);
    assert(fw.last() == (pairs[0].0@, pairs[0].1@));
    assert(apply_seq(s, fw) == replace_seq(s, pairs[0].0@, pairs[0].1@));
    let m = apply_seq(s, fw);
    assert(apply_seq(m, bw.drop_last()) == m);
    assert(bw.last() == (pairs[0].1@, pairs[0].0@));
    assert(apply_seq(m, bw) == replace_seq(m, pairs[0].1@, pairs[0].0@));
    lemma_round_trip(s, pairs[0].0@, pairs[0].1@);
}

/// Relies on str::chars, collected into a Vec: the characters of `s` in order.
#[verifier::external_body]
pub(crate) fn chars_of(s: &str) -> (r: Vec<char>)
    ensures
        r@ == s@,
{
    s.chars().collect()
}

/// Relies on String's FromIterator<&char>: the string of these characters.
#[verifier::external_body]
pub(crate) fn string_of(v: &Vec<char>) -> (r: String)
    ensures
        r@ == v@,
{
    v.iter().collect()
}

pub(crate) fn matches_at(s: &Vec<char>, i: usize, f: &Vec<char>) -> (r: bool)
    requires
        i + f@.len() <= s@.len(),
    ensures
        r == (s@.subrange(i as int, i + f@.len()) == f@),
{
    let mut j: usize = 0;
    while j < f.len()
        invariant
            j <= f@.len(),
            i + f@.len() <= s@.len(),
            forall|k: int| 0 <= k < j ==> s@[i + k] == f@[k],
        decreases f@.len() - j,
    {
        assert(i + j < s.len());
        if s[i + j] != f[j] {
            assert(s@.subrange(i as int, i + f@.len())[j as int] != f@[j as int]);
            return false;
        }
        j += 1;
    }
    assert(s@.subrange(i as int, i + f@.len()) =~= f@);
    true
}

fn append_all(out: &mut Vec<char>, t: &Vec<char>)
    ensures
        final(out)@ == old(out)@ + t@,
{
    let mut j: usize = 0;
    while j < t.len()
        invariant
            j <= t@.len(),
            out@ == old(out)@ + t@.take(j as int),
        decreases t@.len() - j,
    {
        out.push(t[j]);
        j += 1;
        assert(t@.take(j as int) =~= t@.take(j - 1) + seq![t@[j - 1]]);
    }
    assert(t@.take(t@.len() as int) =~= t@);
}

/// Replaces every non-overlapping occurrence of `f` in `s` by `t`, from the
/// left.
pub fn replace_chars(s: &Vec<char>, f: &Vec<char>, t: &Vec<char>) -> (r: Vec<char>)
    ensures
        r@ == replace_seq(s@, f@, t@),
{
    let mut out: Vec<char> = Vec::new();
    let mut i: usize = 0;
    let n = s.len();
    let m = f.len();
    assert(s@.skip(0) =~= s@);
    while i < n
        invariant
            n == s@.len(),
            m == f@.len(),
            i <= n,
            out@ + replace_seq(s@.skip(i as int), f@, t@) == replace_seq(s@, f@, t@),
        decreases n - i,
    {
        let rest = Ghost(s@.skip(i as int));
        if m == 0 {
            append_all(&mut out, t);
            out.push(s[i]);
            assert(rest@.drop_first() =~= s@.skip(i + 1));
            i += 1;
        } else if n - i < m {
            assert(replace_seq(rest@, f@, t@) == rest@);
            assert(replace_seq(rest@.drop_first(), f@, t@) == rest@.drop_first());
            assert(rest@ =~= seq![s@[i as int]] + rest@.drop_first());
            assert(rest@.drop_first() =~= s@.skip(i + 1));
            out.push(s[i]);
            i += 1;
        } else if matches_at(s, i, f) {
            assert(rest@.take(m as int) =~= s@.subrange(i as int, i + m));
            assert(rest@.skip(m as int) =~= s@.skip(i + m));
            append_all(&mut out, t);
            i += m;
        } else {
            assert(rest@.take(m as int) =~= s@.subrange(i as int, i + m));
            assert(rest@.drop_first() =~= s@.skip(i + 1));
            out.push(s[i]);
            i += 1;
        }
    }
    assert(s@.skip(n as int) =~= Seq::<char>::empty());
    if m == 0 {
        append_all(&mut out, t);
    }
    assert(out@ =~= replace_seq(s@, f@, t@));
    out
}

/// Applies the pairs in order to `text`: each pair replaces every
/// occurrence of its `from` in the output of the pairs before it. With
/// `reverse` each pair is read as (to, from).
pub fn apply(text: &str, pairs: &Vec<(String, String)>, reverse: bool) -> (r: String)
    ensures
        r@ == apply_seq(text@, directed(pairs@, reverse)),
{
    let ghost all = directed(pairs@, reverse);
    let mut cur = chars_of(text);
    let mut k: usize = 0;
    assert(all.take(0).len() == 0);
    while k < pairs.len()
        invariant
            k <= pairs@.len(),
            all == directed(pairs@, reverse),
            cur@ == apply_seq(text@, all.take(k as int)),
        decreases pairs@.len() - k,
    {
        let (from, to) = if reverse {
            (chars_of(pairs[k].1.as_str()), chars_of(pairs[k].0.as_str()))
        } else {
            (chars_of(pairs[k].0.as_str()), chars_of(pairs[k].1.as_str()))
        };
        cur = replace_chars(&cur, &from, &to);
        assert(all.take(k + 1).drop_last() =~= all.take(k as int));
        k += 1;
    }
    assert(all.take(pairs@.len() as int) =~= all);
    string_of(&cur)
}

} // verus!
