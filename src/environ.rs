use vstd::prelude::*;
use crate::text::push_char;

verus! {

/// The records of a raw environment block: the pieces between `'\0'`
/// separators, in order. A block of `m` separators has `m + 1` pieces, the
/// last one empty when the block ends with a separator.
pub open spec fn split_records(block: Seq<char>) -> Seq<Seq<char>>
    decreases block.len(),
{
    if block.len() == 0 {
        seq![Seq::<char>::empty()]
    } else {
        let prev = split_records(block.drop_last());
        if block.last() == '\0' {
            prev.push(Seq::<char>::empty())
        } else {
            prev.update(prev.len() - 1, prev.last().push(block.last()))
        }
    }
}

/// `i` is the position of the first `'='` of `rec`.
pub open spec fn first_eq_at(rec: Seq<char>, i: int) -> bool {
    &&& 0 <= i < rec.len()
    &&& rec[i] == '='
    &&& forall|j: int| 0 <= j < i ==> rec[j] != '='
}

pub open spec fn has_no_eq(s: Seq<char>) -> bool {
    forall|j: int| 0 <= j < s.len() ==> s[j] != '='
}

/// A record split once, at its first `'='`, into key and value.
pub open spec fn split_pair(rec: Seq<char>) -> Option<(Seq<char>, Seq<char>)> {
    if exists|i: int| first_eq_at(rec, i) {
        let i = choose|i: int| first_eq_at(rec, i);
        Some((rec.take(i), rec.skip(i + 1)))
    } else {
        None
    }
}

/// The pair a record stands for: none for a record without `'='` or with an
/// empty key or an empty value.
pub open spec fn entry_of(rec: Seq<char>) -> Option<(Seq<char>, Seq<char>)> {
    match split_pair(rec) {
        Some(p) => if p.0.len() > 0 && p.1.len() > 0 {
            Some(p)
        } else {
            None
        },
        None => None,
    }
}

/// The pairs of a sequence of records, malformed records left out.
pub open spec fn entries(recs: Seq<Seq<char>>) -> Seq<(Seq<char>, Seq<char>)>
    decreases recs.len(),
{
    if recs.len() == 0 {
        Seq::empty()
    } else {
        let prev = entries(recs.drop_last());
        match entry_of(recs.last()) {
            Some(p) => prev.push(p),
            None => prev,
        }
    }
}

/// The `(key, value)` pairs of a raw environment block, in block order.
pub open spec fn parsed(block: Seq<char>) -> Seq<(Seq<char>, Seq<char>)> {
    entries(split_records(block))
}

pub open spec fn pairs_view(v: Seq<(String, String)>) -> Seq<(Seq<char>, Seq<char>)> {
    v.map_values(|p: (String, String)| (p.0@, p.1@))
}

pub proof fn lemma_split_records_nonempty(block: Seq<char>)
    ensures
        split_records(block).len() >= 1,
    decreases block.len(),
{
    if block.len() > 0 {
        lemma_split_records_nonempty(block.drop_last());
    }
}

/// A record without `'='` has no key and value.
pub proof fn lemma_split_without_eq(rec: Seq<char>)
    requires
        has_no_eq(rec),
    ensures
        split_pair(rec) is None,
{
}

/// A key without `'='`, then `'='`, then a value, splits back into that key
/// and that value.
pub proof fn lemma_split_at_first_eq(k: Seq<char>, v: Seq<char>)
    requires
        has_no_eq(k),
    ensures
        split_pair(k + seq!['='] + v) == Some((k, v)),
{
    let rec = k + seq!['='] + v;
    assert(first_eq_at(rec, k.len() as int));
    let i = choose|i: int| first_eq_at(rec, i);
    assert(i == k.len()) by {
        if i < k.len() {
            assert(rec[i] == k[i]);
        } else if i > k.len() {
            assert(rec[k.len() as int] == '=');
        }
    }
    assert(rec.take(i) =~= k);
    assert(rec.skip(i + 1) =~= v);
}

/// Parses a raw environment block (`KEY=VALUE` records separated by
/// `'\0'`, the last one terminated or not) into its pairs, in order. Each
/// record is split at its first `'='`; a record without `'='`, or with an
/// empty key or an empty value, is left out.
pub fn parse_environ(block: &str) -> (r: Vec<(String, String)>)
    ensures
        pairs_view(r@) == parsed(block@),
{
    let mut out: Vec<(String, String)> = Vec::new();
    let mut key = String::new();
    let mut value = String::new();
    let mut seen_eq = false;
    let ghost mut cur: Seq<char> = Seq::empty();
    let ghost mut segs: Seq<Seq<char>> = seq![Seq::<char>::empty()];
    assert(segs == split_records(block@.take(0)));
    for c in it: block.chars()
        invariant
            it.seq() == block@,
            segs == split_records(block@.take(it.index() as int)),
            segs.len() >= 1,
            cur == segs.last(),
            pairs_view(out@) == entries(segs.drop_last()),
            !seen_eq ==> key@ == cur && has_no_eq(cur) && value@.len() == 0,
            seen_eq ==> has_no_eq(key@) && cur == key@ + seq!['='] + value@,
    {
        let ghost prefix = block@.take(it.index() as int);
        let ghost next = block@.take(it.index() + 1);
        proof {
            assert(next.drop_last() =~= prefix);
            assert(next.last() == c);
        }
        if c == '\0' {
            proof {
                assert(segs.push(Seq::<char>::empty()).drop_last() =~= segs);
                if seen_eq {
                    lemma_split_at_first_eq(key@, value@);
                } else {
                    lemma_split_without_eq(cur);
                }
            }
            let ghost old_out = out@;
            let ghost kv = (key@, value@);
            if seen_eq && !key.as_str().is_empty() && !value.as_str().is_empty() {
                out.push((key, value));
                assert(pairs_view(out@) =~= pairs_view(old_out).push(kv));
            }
            key = String::new();
            value = String::new();
            seen_eq = false;
            proof {
                assert(entries(segs) == pairs_view(out@));
                segs = segs.push(Seq::<char>::empty());
                cur = Seq::empty();
            }
        } else {
            if c == '=' && !seen_eq {
                seen_eq = true;
            } else if seen_eq {
                push_char(&mut value, c);
            } else {
                push_char(&mut key, c);
            }
            proof {
                let updated = segs.update(segs.len() - 1, cur.push(c));
                assert(updated.drop_last() =~= segs.drop_last());
                segs = updated;
                cur = cur.push(c);
            }
        }
    }
    proof {
        assert(block@.take(block@.len() as int) =~= block@);
        if seen_eq {
            lemma_split_at_first_eq(key@, value@);
        } else {
            lemma_split_without_eq(cur);
        }
    }
    let ghost old_out = out@;
    let ghost kv = (key@, value@);
    if seen_eq && !key.as_str().is_empty() && !value.as_str().is_empty() {
        out.push((key, value));
        assert(pairs_view(out@) =~= pairs_view(old_out).push(kv));
    }
    out
}


pub open spec fn has_no_nul(s: Seq<char>) -> bool {
    forall|j: int| 0 <= j < s.len() ==> s[j] != '\0'
}

/// Records written out one after the other, each terminated by `'\0'`.
pub open spec fn join_records(recs: Seq<Seq<char>>) -> Seq<char>
    decreases recs.len(),
{
    if recs.len() == 0 {
        Seq::empty()
    } else {
        join_records(recs.drop_last()) + recs.last() + seq!['\0']
    }
}

/// The record `KEY=VALUE` of a pair.
pub open spec fn record_of(p: (Seq<char>, Seq<char>)) -> Seq<char> {
    p.0 + seq!['='] + p.1
}

/// The raw block that holds the given pairs, each record terminated by `'\0'`.
pub open spec fn block_of(pairs: Seq<(Seq<char>, Seq<char>)>) -> Seq<char> {
    join_records(pairs.map_values(|p: (Seq<char>, Seq<char>)| record_of(p)))
}

/// Characters without a separator extend the block's last record.
proof fn lemma_split_extend(s: Seq<char>, t: Seq<char>)
    requires
        has_no_nul(t),
    ensures
        ({
            let p = split_records(s);
            split_records(s + t) == p.update(p.len() - 1, p.last() + t)
        }),
    decreases t.len(),
{
    lemma_split_records_nonempty(s);
    let p = split_records(s);
    if t.len() == 0 {
        assert(s + t =~= s);
        assert(p.last() + t =~= p.last());
        assert(p.update(p.len() - 1, p.last()) =~= p);
    } else {
        let init = t.drop_last();
        lemma_split_extend(s, init);
        assert((s + t).drop_last() =~= s + init);
        assert(t[t.len() - 1] != '\0');
        let q = p.update(p.len() - 1, p.last() + init);
        assert(q.last() == p.last() + init);
        assert(p.last() + init.push(t.last()) =~= (p.last() + init).push(t.last()));
        assert(init.push(t.last()) =~= t);
        assert(q.update(q.len() - 1, q.last().push(t.last())) =~= p.update(
            p.len() - 1,
            p.last() + t,
        ));
    }
}

/// Splitting the written-out records gives them back, followed by the empty
/// piece after the final separator.
proof fn lemma_split_joined(recs: Seq<Seq<char>>)
    requires
        forall|i: int| 0 <= i < recs.len() ==> has_no_nul(#[trigger] recs[i]),
    ensures
        split_records(join_records(recs)) == recs.push(Seq::<char>::empty()),
    decreases recs.len(),
{
    if recs.len() > 0 {
        let init = recs.drop_last();
        let last = recs.last();
        assert(has_no_nul(recs[recs.len() - 1]));
        lemma_split_joined(init);
        let j = join_records(init);
        lemma_split_extend(j, last);
        let p = split_records(j);
        assert(Seq::<char>::empty() + last =~= last);
        assert(p.update(p.len() - 1, p.last() + last) =~= recs);
        let whole = join_records(recs);
        assert(whole.drop_last() =~= j + last);
    }
}

/// The pairs of records written one after the other are those of the first
/// ones followed by those of the last ones.
proof fn lemma_entries_append(a: Seq<Seq<char>>, b: Seq<Seq<char>>)
    ensures
        entries(a + b) == entries(a) + entries(b),
    decreases b.len(),
{
    if b.len() == 0 {
        assert(a + b =~= a);
        assert(entries(a) + entries(b) =~= entries(a));
    } else {
        lemma_entries_append(a, b.drop_last());
        assert((a + b).drop_last() =~= a + b.drop_last());
        assert((a + b).last() == b.last());
        match entry_of(b.last()) {
            Some(p) => {
                assert((entries(a) + entries(b.drop_last())).push(p) =~= entries(a) + entries(
                    b.drop_last(),
                ).push(p));
            },
            None => {},
        }
    }
}

/// A block of records, each terminated by `'\0'`, parses into the pairs of
/// its well-formed records, in order.
pub proof fn lemma_parse_joined(recs: Seq<Seq<char>>)
    requires
        forall|i: int| 0 <= i < recs.len() ==> has_no_nul(#[trigger] recs[i]),
    ensures
        parsed(join_records(recs)) == entries(recs),
{
    lemma_split_joined(recs);
    let all = recs.push(Seq::<char>::empty());
    assert(all.drop_last() =~= recs);
    assert(split_pair(Seq::<char>::empty()) is None);
}

/// Round trip: writing pairs out as `KEY=VALUE` records terminated by `'\0'`
/// and parsing the block gives back exactly those pairs, in order, when every
/// key and value is non-empty and free of `'\0'`, and no key holds `'='`.
pub proof fn lemma_parse_round_trip(pairs: Seq<(Seq<char>, Seq<char>)>)
    requires
        forall|i: int|
            0 <= i < pairs.len() ==> {
                let p = #[trigger] pairs[i];
                &&& p.0.len() > 0
                &&& p.1.len() > 0
                &&& has_no_eq(p.0)
                &&& has_no_nul(p.0)
                &&& has_no_nul(p.1)
            },
    ensures
        parsed(block_of(pairs)) == pairs,
    decreases pairs.len(),
{
    let recs = pairs.map_values(|p: (Seq<char>, Seq<char>)| record_of(p));
    assert forall|i: int| 0 <= i < recs.len() implies has_no_nul(#[trigger] recs[i]) by {
        let p = pairs[i];
        assert(recs[i] == p.0 + seq!['='] + p.1);
        assert forall|j: int| 0 <= j < recs[i].len() implies recs[i][j] != '\0' by {
            if j < p.0.len() {
                assert(recs[i][j] == p.0[j]);
            } else if j > p.0.len() {
                assert(recs[i][j] == p.1[j - p.0.len() - 1]);
            }
        }
    }
    lemma_parse_joined(recs);
    lemma_entries_of_records(pairs);
}

proof fn lemma_entries_of_records(pairs: Seq<(Seq<char>, Seq<char>)>)
    requires
        forall|i: int|
            0 <= i < pairs.len() ==> {
                let p = #[trigger] pairs[i];
                &&& p.0.len() > 0
                &&& p.1.len() > 0
                &&& has_no_eq(p.0)
            },
    ensures
        entries(pairs.map_values(|p: (Seq<char>, Seq<char>)| record_of(p))) == pairs,
    decreases pairs.len(),
{
    if pairs.len() > 0 {
        let init = pairs.drop_last();
        let last = pairs.last();
        assert(forall|i: int| 0 <= i < init.len() ==> init[i] == pairs[i]);
        lemma_entries_of_records(init);
        let recs = pairs.map_values(|p: (Seq<char>, Seq<char>)| record_of(p));
        assert(recs.drop_last() =~= init.map_values(|p: (Seq<char>, Seq<char>)| record_of(p)));
        assert(pairs[pairs.len() - 1] == last);
        lemma_split_at_first_eq(last.0, last.1);
        assert(init.push(last) =~= pairs);
    }
}

/// A malformed record (no `'='`, or an empty key or value) is ignored: the
/// block parses exactly as if it were not there, and the records around it
/// keep their pairs.
pub proof fn lemma_malformed_record_ignored(
    before: Seq<Seq<char>>,
    bad: Seq<char>,
    after: Seq<Seq<char>>,
)
    requires
        forall|i: int| 0 <= i < before.len() ==> has_no_nul(#[trigger] before[i]),
        forall|i: int| 0 <= i < after.len() ==> has_no_nul(#[trigger] after[i]),
        has_no_nul(bad),
        has_no_eq(bad) || (split_pair(bad) matches Some(p) && (p.0.len() == 0 || p.1.len()
            == 0)),
    ensures
        parsed(join_records(before + seq![bad] + after)) == parsed(join_records(before + after)),
        parsed(join_records(before + after)) == entries(before) + entries(after),
{
    let with_bad = before + seq![bad] + after;
    let without = before + after;
    assert forall|i: int| 0 <= i < with_bad.len() implies has_no_nul(#[trigger] with_bad[i]) by {
        if i < before.len() {
            assert(with_bad[i] == before[i]);
        } else if i > before.len() {
            assert(with_bad[i] == after[i - before.len() - 1]);
        }
    }
    assert forall|i: int| 0 <= i < without.len() implies has_no_nul(#[trigger] without[i]) by {
        if i < before.len() {
            assert(without[i] == before[i]);
        } else {
            assert(without[i] == after[i - before.len()]);
        }
    }
    lemma_parse_joined(with_bad);
    lemma_parse_joined(without);
    lemma_entries_append(before + seq![bad], after);
    lemma_entries_append(before, seq![bad]);
    lemma_entries_append(before, after);
    assert(seq![bad].drop_last() =~= Seq::<Seq<char>>::empty());
    assert(entry_of(bad) is None);
    assert(seq![bad].last() == bad);
    assert(entries(Seq::<Seq<char>>::empty()) =~= Seq::<(Seq<char>, Seq<char>)>::empty());
    assert(entries(seq![bad]) =~= Seq::<(Seq<char>, Seq<char>)>::empty());
    assert(entries(before) + Seq::<(Seq<char>, Seq<char>)>::empty() =~= entries(before));
}

} // verus!
