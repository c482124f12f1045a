use vstd::prelude::*;

verus! {

/// One entry of the process listing: its name, when it could be read as text,
/// and the user id that owns it, when that could be looked up.
pub struct ProcEntry {
    pub name: Option<String>,
    pub owner: Option<u32>,
}

/// A name made of decimal digits alone, as a process id is.
pub open spec fn is_numeric(name: Seq<char>) -> bool {
    &&& name.len() > 0
    &&& forall|i: int| 0 <= i < name.len() ==> '0' <= #[trigger] name[i] <= '9'
}

/// Whether an entry is a process of user `me`; if so, its name.
pub open spec fn candidate_name(e: ProcEntry, me: u32) -> Option<Seq<char>> {
    match e.name {
        Some(n) => if is_numeric(n@) && e.owner == Some(me) {
            Some(n@)
        } else {
            None
        },
        None => None,
    }
}

/// The names of the entries that are processes of user `me`, in listing
/// order.
pub open spec fn candidates_of(entries: Seq<ProcEntry>, me: u32) -> Seq<Seq<char>>
    decreases entries.len(),
{
    if entries.len() == 0 {
        Seq::empty()
    } else {
        let prev = candidates_of(entries.drop_last(), me);
        match candidate_name(entries.last(), me) {
            Some(n) => prev.push(n),
            None => prev,
        }
    }
}

/// Whether a listing entry's name can be a process id: non-empty, and
/// decimal digits only.
pub fn is_candidate_name(name: &str) -> (r: bool)
    ensures
        r == is_numeric(name@),
{
    let mut all_digits = true;
    for c in it: name.chars()
        invariant
            it.seq() == name@,
            all_digits == forall|i: int| 0 <= i < it.index() ==> '0' <= #[trigger] name@[i] <= '9',
    {
        if c < '0' || c > '9' {
            all_digits = false;
        }
    }
    all_digits && !name.is_empty()
}

/// Keeps the entries that are processes owned by user `me`: those whose name
/// is a process id and whose owner is `me`. An entry whose name could not be
/// read, or whose owner could not be looked up, is skipped.
pub fn filter_candidates(entries: &Vec<ProcEntry>, me: u32) -> (r: Vec<String>)
    ensures
        r@.map_values(|s: String| s@) == candidates_of(entries@, me),
{
    let mut out: Vec<String> = Vec::new();
    for i in 0..entries.len()
        invariant
            out@.map_values(|s: String| s@) == candidates_of(entries@.take(i as int), me),
    {
        proof {
            assert(entries@.take(i + 1).drop_last() =~= entries@.take(i as int));
        }
        let ghost before = out@;
        let e = &entries[i];
        if let Some(n) = &e.name {
            if is_candidate_name(n.as_str()) && e.owner == Some(me) {
                out.push(n.clone());
                assert(out@.map_values(|s: String| s@) =~= before.map_values(|s: String| s@).push(
                    n@,
                ));
            }
        }
    }
    proof {
        assert(entries@.take(entries@.len() as int) =~= entries@);
    }
    out
}

} // verus!
