use vstd::prelude::*;
use crate::environ::{parse_environ, parsed, pairs_view};

verus! {

/// What one process said about its display: its `DISPLAY` value and, when it
/// had one, its `XAUTHORITY` value.
pub struct Observation {
    pub display: String,
    pub xauthority: Option<String>,
}

pub open spec fn opt_view(o: Option<String>) -> Option<Seq<char>> {
    match o {
        Some(s) => Some(s@),
        None => None,
    }
}

pub open spec fn filter_view(f: Option<&str>) -> Option<Seq<char>> {
    match f {
        Some(s) => Some(s@),
        None => None,
    }
}

impl View for Observation {
    type V = (Seq<char>, Option<Seq<char>>);

    open spec fn view(&self) -> (Seq<char>, Option<Seq<char>>) {
        (self.display@, opt_view(self.xauthority))
    }
}

impl Observation {
    pub fn new(display: String, xauthority: Option<String>) -> (r: Observation)
        ensures
            r.display == display,
            r.xauthority == xauthority,
    {
        Observation { display, xauthority }
    }

    /// A copy of this observation.
    pub fn duplicate(&self) -> (r: Observation)
        ensures
            r@ == self@,
    {
        let xauthority = match &self.xauthority {
            Some(x) => Some(x.clone()),
            None => None,
        };
        Observation { display: self.display.clone(), xauthority }
    }

    /// Whether two observations hold the same display and authority file.
    pub fn same_as(&self, other: &Observation) -> (r: bool)
        ensures
            r == (self@ == other@),
    {
        if self.display != other.display {
            return false;
        }
        match (&self.xauthority, &other.xauthority) {
            (Some(a), Some(b)) => *a == *b,
            (None, None) => true,
            _ => false,
        }
    }
}

/// The value of the first pair whose key is `key`.
pub open spec fn first_value(pairs: Seq<(Seq<char>, Seq<char>)>, key: Seq<char>) -> Option<
    Seq<char>,
>
    decreases pairs.len(),
{
    if pairs.len() == 0 {
        None
    } else {
        match first_value(pairs.drop_last(), key) {
            Some(v) => Some(v),
            None => if pairs.last().0 == key {
                Some(pairs.last().1)
            } else {
                None
            },
        }
    }
}

/// The observation a process with the given environment block yields: its
/// first `DISPLAY` value and its first `XAUTHORITY` value, or nothing when it
/// has no `DISPLAY`, or when a display filter is given and the `DISPLAY`
/// value differs from it.
pub open spec fn observation_of(block: Seq<char>, filter: Option<Seq<char>>) -> Option<
    (Seq<char>, Option<Seq<char>>),
> {
    let pairs = parsed(block);
    match first_value(pairs, "DISPLAY"@) {
        None => None,
        Some(d) => if filter matches Some(f) && f != d {
            None
        } else {
            Some((d, first_value(pairs, "XAUTHORITY"@)))
        },
    }
}

proof fn lemma_first_value_step(pairs: Seq<(Seq<char>, Seq<char>)>, key: Seq<char>, i: int)
    requires
        0 <= i < pairs.len(),
    ensures
        first_value(pairs.take(i + 1), key) == (match first_value(pairs.take(i), key) {
            Some(v) => Some(v),
            None => if pairs[i].0 == key {
                Some(pairs[i].1)
            } else {
                None
            },
        }),
{
    assert(pairs.take(i + 1).drop_last() =~= pairs.take(i));
}

/// Once a prefix holds the key, pairs after it do not change its value.
proof fn lemma_first_value_prefix(pairs: Seq<(Seq<char>, Seq<char>)>, key: Seq<char>, i: int)
    requires
        0 <= i <= pairs.len(),
        first_value(pairs.take(i), key) is Some,
    ensures
        first_value(pairs, key) == first_value(pairs.take(i), key),
    decreases pairs.len() - i,
{
    if i == pairs.len() {
        assert(pairs.take(i) =~= pairs);
    } else {
        lemma_first_value_step(pairs, key, i);
        lemma_first_value_prefix(pairs, key, i + 1);
    }
}

/// The first pair with a key decides its value, whatever pairs with that key
/// come later.
pub proof fn lemma_first_occurrence_wins(
    pairs: Seq<(Seq<char>, Seq<char>)>,
    key: Seq<char>,
    i: int,
)
    requires
        0 <= i < pairs.len(),
        pairs[i].0 == key,
        forall|j: int| 0 <= j < i ==> pairs[j].0 != key,
    ensures
        first_value(pairs, key) == Some(pairs[i].1),
{
    assert forall|k: int| 0 <= k <= i implies first_value(pairs.take(k), key) is None by {
        lemma_first_value_none(pairs, key, k);
    }
    lemma_first_value_step(pairs, key, i);
    lemma_first_value_prefix(pairs, key, i + 1);
}

proof fn lemma_first_value_none(pairs: Seq<(Seq<char>, Seq<char>)>, key: Seq<char>, k: int)
    requires
        0 <= k <= pairs.len(),
        forall|j: int| 0 <= j < k ==> pairs[j].0 != key,
    ensures
        first_value(pairs.take(k), key) is None,
    decreases k,
{
    if k > 0 {
        lemma_first_value_none(pairs, key, k - 1);
        lemma_first_value_step(pairs, key, k - 1);
    } else {
        assert(pairs.take(0) =~= Seq::<(Seq<char>, Seq<char>)>::empty());
    }
}

/// Reads the observation out of a process's raw environment block: the
/// first `DISPLAY` and the first `XAUTHORITY`, scanning no further than
/// needed. With a filter, a process whose `DISPLAY` differs from it yields
/// nothing.
pub fn extract_observation(block: &str, filter: Option<&str>) -> (r: Option<Observation>)
    ensures
        match r {
            Some(o) => observation_of(block@, filter_view(filter)) == Some(o@),
            None => observation_of(block@, filter_view(filter)) is None,
        },
{
    let pairs = parse_environ(block);
    let ghost pv = pairs_view(pairs@);
    let display_key = "DISPLAY".to_owned();
    let xauthority_key = "XAUTHORITY".to_owned();
    let mut display: Option<usize> = None;
    let mut xauthority: Option<usize> = None;
    let mut i: usize = 0;
    while i < pairs.len() && (display.is_none() || xauthority.is_none())
        invariant
            i <= pairs.len(),
            pv == pairs_view(pairs@),
            display_key@ == "DISPLAY"@,
            xauthority_key@ == "XAUTHORITY"@,
            match display {
                Some(j) => j < i && first_value(pv.take(i as int), "DISPLAY"@) == Some(pv[j as int].1),
                None => first_value(pv.take(i as int), "DISPLAY"@) is None,
            },
            match xauthority {
                Some(j) => j < i && first_value(pv.take(i as int), "XAUTHORITY"@) == Some(
                    pv[j as int].1,
                ),
                None => first_value(pv.take(i as int), "XAUTHORITY"@) is None,
            },
        decreases pairs.len() - i,
    {
        proof {
            lemma_first_value_step(pv, "DISPLAY"@, i as int);
            lemma_first_value_step(pv, "XAUTHORITY"@, i as int);
        }
        if display.is_none() && pairs[i].0 == display_key {
            display = Some(i);
        }
        if xauthority.is_none() && pairs[i].0 == xauthority_key {
            xauthority = Some(i);
        }
        i = i + 1;
    }
    proof {
        if i == pairs.len() {
            assert(pv.take(i as int) =~= pv);
        } else {
            lemma_first_value_prefix(pv, "DISPLAY"@, i as int);
            lemma_first_value_prefix(pv, "XAUTHORITY"@, i as int);
        }
    }
    let d = match display {
        Some(j) => j,
        None => return None,
    };
    if let Some(f) = filter {
        if f.to_owned() != pairs[d].1 {
            return None;
        }
    }
    let x = match xauthority {
        Some(j) => Some(pairs[j].1.clone()),
        None => None,
    };
    Some(Observation { display: pairs[d].1.clone(), xauthority: x })
}

} // verus!
