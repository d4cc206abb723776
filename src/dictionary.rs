use vstd::prelude::*;
use crate::text::{apply, apply_seq, chars_of, directed, matches_at};

verus! {

/// One stored pair: `find` is replaced by `replace`, or the other way round.
pub struct Replacement {
    pub id: i32,
    pub find: String,
    pub replace: String,
}

/// Why a candidate pair is refused.
#[derive(Debug, PartialEq, Eq, Structural, Clone, Copy)]
pub enum DictError {
    /// `find` and `replace` differ in their number of characters.
    LengthMismatch,
    /// Both strings are empty.
    EmptyEntry,
    /// `find` contains a stored `find`, or lies inside one.
    OverlapViolation,
    /// No identifier is left to give the new entry.
    IdsExhausted,
}

/// How a candidate pair that passed the fatal checks is treated.
#[derive(Debug, PartialEq, Eq, Structural, Clone, Copy)]
pub enum Verdict {
    /// The pair can be stored.
    Accepted,
    /// `replace` contains a stored `replace`, or lies inside one: the pair is
    /// not stored, and this is reported as a notice rather than an error.
    ReplaceOverlap,
}

/// `needle` occurs in `hay` as a contiguous run.
pub open spec fn contains_seq(hay: Seq<char>, needle: Seq<char>) -> bool {
    exists|i: int|
        0 <= i && i + needle.len() <= hay.len() && #[trigger] hay.subrange(i, i + needle.len())
            == needle
}

/// One of the two strings contains the other.
pub open spec fn overlaps(a: Seq<char>, b: Seq<char>) -> bool {
    contains_seq(a, b) || contains_seq(b, a)
}

/// `s` overlaps the `find` of some entry.
pub open spec fn find_conflict(entries: Seq<Replacement>, s: Seq<char>) -> bool {
    exists|k: int| 0 <= k < entries.len() && overlaps(s, #[trigger] entries[k].find@)
}

/// `s` overlaps the `replace` of some entry.
pub open spec fn replace_conflict(entries: Seq<Replacement>, s: Seq<char>) -> bool {
    exists|k: int| 0 <= k < entries.len() && overlaps(s, #[trigger] entries[k].replace@)
}

/// What inserting (`find`, `replace`) next to `entries` comes to.
pub open spec fn insert_verdict(entries: Seq<Replacement>, find: Seq<char>, replace: Seq<char>)
    -> Result<Verdict, DictError> {
    if find.len() != replace.len() {
        Err(DictError::LengthMismatch)
    } else if find.len() == 0 {
        Err(DictError::EmptyEntry)
    } else if find_conflict(entries, find) {
        Err(DictError::OverlapViolation)
    } else if replace_conflict(entries, replace) {
        Ok(Verdict::ReplaceOverlap)
    } else {
        Ok(Verdict::Accepted)
    }
}

/// The pair would be stored.
pub open spec fn accepts(entries: Seq<Replacement>, find: Seq<char>, replace: Seq<char>) -> bool {
    insert_verdict(entries, find, replace) == Ok::<Verdict, DictError>(Verdict::Accepted)
}

/// Whether `needle` occurs in `hay`.
pub fn contains_chars(hay: &Vec<char>, needle: &Vec<char>) -> (r: bool)
    ensures
        r == contains_seq(hay@, needle@),
{
    if needle.len() > hay.len() {
        return false;
    }
    let last = hay.len() - needle.len();
    let mut i: usize = 0;
    while i <= last
        invariant
            last + needle@.len() == hay@.len(),
            i <= last,
            forall|j: int| 0 <= j < i ==> #[trigger] hay@.subrange(j, j + needle@.len()) != needle@,
        ensures
            forall|j: int|
                0 <= j <= last ==> #[trigger] hay@.subrange(j, j + needle@.len()) != needle@,
        decreases last + 1 - i,
    {
        if matches_at(hay, i, needle) {
            return true;
        }
        if i == last {
            break;
        }
        i += 1;
    }
    assert forall|j: int|
        0 <= j && j + needle@.len() <= hay@.len() implies #[trigger] hay@.subrange(j, j + needle@.len())
        != needle@ by {
        assert(j <= last);
    }
    false
}

/// Whether one of `a` and `b` contains the other.
pub fn overlapping(a: &Vec<char>, b: &Vec<char>) -> (r: bool)
    ensures
        r == overlaps(a@, b@),
{
    contains_chars(a, b) || contains_chars(b, a)
}

/// Decides whether (`find`, `replace`) may join `entries`. The checks run in
/// this order: equal character counts, non-empty, no overlap with a stored
/// `find` (fatal), no overlap with a stored `replace` (a notice).
pub fn check_insert(entries: &Vec<Replacement>, find: &str, replace: &str) -> (r: Result<
    Verdict,
    DictError,
>)
    ensures
        r == insert_verdict(entries@, find@, replace@),
{
    let f = chars_of(find);
    let t = chars_of(replace);
    if f.len() != t.len() {
        return Err(DictError::LengthMismatch);
    }
    if f.len() == 0 {
        return Err(DictError::EmptyEntry);
    }
    let mut k: usize = 0;
    while k < entries.len()
        invariant
            f@ == find@,
            find@.len() == replace@.len(),
            find@.len() > 0,
            forall|j: int| 0 <= j < k ==> !overlaps(find@, #[trigger] entries@[j].find@),
        decreases entries@.len() - k,
    {
        let other = chars_of(entries[k].find.as_str());
        if overlapping(&f, &other) {
            assert(overlaps(find@, entries@[k as int].find@));
            return Err(DictError::OverlapViolation);
        }
        k += 1;
    }
    let mut k: usize = 0;
    while k < entries.len()
        invariant
            t@ == replace@,
            find@.len() == replace@.len(),
            find@.len() > 0,
            forall|j: int| 0 <= j < entries@.len() ==> !overlaps(find@, #[trigger] entries@[j].find@),
            forall|j: int| 0 <= j < k ==> !overlaps(replace@, #[trigger] entries@[j].replace@),
        decreases entries@.len() - k,
    {
        let other = chars_of(entries[k].replace.as_str());
        if overlapping(&t, &other) {
            assert(overlaps(replace@, entries@[k as int].replace@));
            return Ok(Verdict::ReplaceOverlap);
        }
        k += 1;
    }
    Ok(Verdict::Accepted)
}

/// The entries keep the dictionary's rules: equal character counts, nothing
/// empty, no `find` or `replace` overlapping that of another entry, and
/// identifiers increasing in storage order.
pub open spec fn entries_wf(es: Seq<Replacement>) -> bool {
    &&& forall|i: int|
        0 <= i < es.len() ==> (#[trigger] es[i]).find@.len() == es[i].replace@.len()
            && es[i].find@.len() > 0
    &&& forall|i: int, j: int|
        0 <= i < es.len() && 0 <= j < es.len() && i != j ==> !overlaps(
            (#[trigger] es[i]).find@,
            (#[trigger] es[j]).find@,
        ) && !overlaps(es[i].replace@, es[j].replace@)
    &&& forall|i: int, j: int| 0 <= i < j < es.len() ==> (#[trigger] es[i]).id < (#[trigger] es[j]).id
}

/// The (find, replace) pairs of `es`, in storage order.
pub open spec fn pairs_view(es: Seq<Replacement>) -> Seq<(Seq<char>, Seq<char>)> {
    Seq::new(es.len(), |i: int| (es[i].find@, es[i].replace@))
}

/// The pairs that a store with entries `es` applies: (find, replace) in
/// storage order, or (replace, find) with `reverse`.
pub open spec fn store_pairs(es: Seq<Replacement>, reverse: bool) -> Seq<(Seq<char>, Seq<char>)> {
    if reverse {
        Seq::new(es.len(), |i: int| (es[i].replace@, es[i].find@))
    } else {
        pairs_view(es)
    }
}

/// The (find, replace) pairs of `entries`, in storage order, for `apply`.
pub fn pairs_of(entries: &Vec<Replacement>) -> (r: Vec<(String, String)>)
    ensures
        r@.len() == entries@.len(),
        forall|i: int|
            0 <= i < r@.len() ==> (#[trigger] r@[i]).0@ == entries@[i].find@ && r@[i].1@
                == entries@[i].replace@,
{
    let mut r: Vec<(String, String)> = Vec::new();
    let mut k: usize = 0;
    while k < entries.len()
        invariant
            k <= entries@.len(),
            r@.len() == k,
            forall|i: int|
                0 <= i < k ==> (#[trigger] r@[i]).0@ == entries@[i].find@ && r@[i].1@
                    == entries@[i].replace@,
        decreases entries@.len() - k,
    {
        r.push((entries[k].find.clone(), entries[k].replace.clone()));
        k += 1;
    }
    r
}

/// An ordered store of replacement pairs that keeps the dictionary's rules.
pub struct Dictionary {
    entries: Vec<Replacement>,
    next_id: i32,
}

impl View for Dictionary {
    type V = Seq<Replacement>;

    closed spec fn view(&self) -> Seq<Replacement> {
        self.entries@
    }
}

impl Dictionary {
    /// The identifier that the next stored entry receives.
    pub closed spec fn next_id(&self) -> int {
        self.next_id as int
    }

    pub closed spec fn wf(&self) -> bool {
        &&& entries_wf(self.entries@)
        &&& self.next_id >= 1
        &&& forall|i: int|
            0 <= i < self.entries@.len() ==> (#[trigger] self.entries@[i]).id < self.next_id
    }

    /// An empty store.
    pub fn new() -> (r: Dictionary)
        ensures
            r.wf(),
            r@ == Seq::<Replacement>::empty(),
            r.next_id() == 1,
    {
        Dictionary { entries: Vec::new(), next_id: 1 }
    }

    /// The stored entries, in storage order.
    pub fn list(&self) -> (r: &Vec<Replacement>)
        ensures
            r@ == self@,
    {
        &self.entries
    }

    /// The stored pairs as (find, replace), in storage order.
    pub fn pairs(&self) -> (r: Vec<(String, String)>)
        ensures
            directed(r@, false) == store_pairs(self@, false),
            directed(r@, true) == store_pairs(self@, true),
    {
        let r = pairs_of(&self.entries);
        assert(directed(r@, false) =~= store_pairs(self@, false));
        assert(directed(r@, true) =~= store_pairs(self@, true));
        r
    }

    /// Applies the stored pairs, in storage order, to `input`; with `reverse`
    /// each pair maps `replace` back to `find`.
    pub fn replace_text(&self, input: &str, reverse: bool) -> (r: String)
        ensures
            r@ == apply_seq(input@, store_pairs(self@, reverse)),
    {
        let pairs = self.pairs();
        apply(input, &pairs, reverse)
    }

    /// Stores (`find`, `replace`) under a fresh identifier when
    /// `check_insert` accepts it; otherwise leaves the store as it is and
    /// reports why.
    pub fn insert(&mut self, find: String, replace: String) -> (r: Result<Verdict, DictError>)
        requires
            old(self).wf(),
        ensures
            final(self).wf(),
            accepts(old(self)@, find@, replace@) && old(
                self,
            ).next_id() < i32::MAX ==> r == Ok::<Verdict, DictError>(Verdict::Accepted) && final(self)@ == old(
                self,
            )@.push(Replacement { id: old(self).next_id() as i32, find: find, replace: replace })
                && final(self).next_id() == old(self).next_id() + 1,
            accepts(old(self)@, find@, replace@) && old(
                self,
            ).next_id() >= i32::MAX ==> r == Err::<Verdict, DictError>(DictError::IdsExhausted)
                && final(self)@ == old(self)@ && final(self).next_id() == old(self).next_id(),
            !accepts(old(self)@, find@, replace@) ==> r == insert_verdict(old(self)@, find@, replace@) && final(self)@ == old(self)@
                && final(self).next_id() == old(self).next_id(),
    {
        let v = check_insert(&self.entries, find.as_str(), replace.as_str());
        match v {
            Ok(Verdict::Accepted) => {},
            _ => return v,
        }
        if self.next_id == i32::MAX {
            return Err(DictError::IdsExhausted);
        }
        let ghost before = self.entries@;
        let e = Replacement { id: self.next_id, find, replace };
        self.entries.push(e);
        self.next_id = self.next_id + 1;
        let r: Result<Verdict, DictError> = Ok(Verdict::Accepted);
        proof {
            let es = self.entries@;
            let n = before.len() as int;
            assert(es[n] == e);
            assert forall|i: int, j: int|
                0 <= i < es.len() && 0 <= j < es.len() && i != j implies !overlaps(
                (#[trigger] es[i]).find@,
                (#[trigger] es[j]).find@,
            ) && !overlaps(es[i].replace@, es[j].replace@) by {
                if i == n {
                    assert(!overlaps(e.find@, before[j].find@));
                    assert(!overlaps(e.replace@, before[j].replace@));
                    assert(overlaps(e.find@, before[j].find@) == overlaps(before[j].find@, e.find@));
                    assert(overlaps(e.replace@, before[j].replace@) == overlaps(before[j].replace@, e.replace@));
                } else if j == n {
                    assert(!overlaps(e.find@, before[i].find@));
                    assert(!overlaps(e.replace@, before[i].replace@));
                } else {
                    assert(es[i] == before[i] && es[j] == before[j]);
                }
            }
        }
        r
    }

    /// Removes the entry with identifier `id`. An identifier that no entry
    /// has leaves the store unchanged; this is not an error.
    pub fn delete(&mut self, id: i32)
        requires
            old(self).wf(),
        ensures
            final(self).wf(),
            final(self).next_id() == old(self).next_id(),
            (forall|k: int| 0 <= k < old(self)@.len() ==> (#[trigger] old(self)@[k]).id != id)
                ==> final(self)@ == old(self)@,
            forall|k: int|
                0 <= k < old(self)@.len() && (#[trigger] old(self)@[k]).id == id ==> final(self)@
                    == old(self)@.remove(k),
    {
        let mut k: usize = 0;
        while k < self.entries.len()
            invariant
                self.wf(),
                self.entries@ == old(self).entries@,
                self.next_id == old(self).next_id,
                k <= self.entries@.len(),
                forall|j: int| 0 <= j < k ==> (#[trigger] self.entries@[j]).id != id,
            decreases self.entries@.len() - k,
        {
            if self.entries[k].id == id {
                let ghost before = self.entries@;
                self.entries.remove(k);
                proof {
                    let es = self.entries@;
                    assert(es =~= before.remove(k as int));
                    assert forall|i: int| 0 <= i < es.len() implies (#[trigger] es[i]).find@.len()
                        == es[i].replace@.len() && es[i].find@.len() > 0 && es[i].id
                        < self.next_id by {
                        if i >= k {
                            assert(es[i] == before[i + 1]);
                        }
                    }
                    assert forall|i: int, j: int|
                        0 <= i < es.len() && 0 <= j < es.len() && i != j implies !overlaps(
                        (#[trigger] es[i]).find@,
                        (#[trigger] es[j]).find@,
                    ) && !overlaps(es[i].replace@, es[j].replace@) by {
                        let oi = if i < k { i } else { i + 1 };
                        let oj = if j < k { j } else { j + 1 };
                        assert(es[i] == before[oi] && es[j] == before[oj]);
                    }
                    assert forall|i: int, j: int| 0 <= i < j < es.len() implies (
                    #[trigger] es[i]).id < (#[trigger] es[j]).id by {
                        let oi = if i < k { i } else { i + 1 };
                        let oj = if j < k { j } else { j + 1 };
                        assert(es[i] == before[oi] && es[j] == before[oj]);
                    }
                    assert forall|m: int|
                        0 <= m < before.len() && (#[trigger] before[m]).id == id implies m
                        == k by {
                        if m < k {
                        } else if m > k {
                            assert(before[k as int].id < before[m].id);
                        }
                    }
                    assert(old(self)@[k as int].id == id);
                }
                return;
            }
            k += 1;
        }
    }
}

/// Every entry of a well-formed store has `find` and `replace` of equal
/// character count, neither empty, and no two entries have overlapping
/// `find` strings or overlapping `replace` strings; every identifier lies
/// below the next one to be given, which is a positive `i32`.
pub proof fn lemma_store_rules(d: Dictionary)
    requires
        d.wf(),
    ensures
        entries_wf(d@),
        forall|i: int| 0 <= i < d@.len() ==> (#[trigger] d@[i]).id < d.next_id(),
        1 <= d.next_id() <= i32::MAX,
{
}

} // verus!