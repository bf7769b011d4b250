//! Command-line argument lookup.
use vstd::prelude::*;

verus! {

/// `i` is the first position of `flag` in `args`.
pub open spec fn is_first_match(args: Seq<String>, flag: Seq<char>, i: int) -> bool {
    &&& 0 <= i < args.len()
    &&& args[i]@ == flag
    &&& forall|j: int| 0 <= j < i ==> args[j]@ != flag
}

/// Character-wise equality of two strings.
fn str_eq(a: &str, b: &str) -> (eq: bool)
    ensures
        eq == (a@ == b@),
{
    let mut ca: Vec<char> = Vec::new();
    for c in it: a.chars()
        invariant
            ca@ == it.seq().take(it.index()),
    {
        ca.push(c);
    }
    let mut cb: Vec<char> = Vec::new();
    for c in it: b.chars()
        invariant
            cb@ == it.seq().take(it.index()),
    {
        cb.push(c);
    }
    if ca.len() != cb.len() {
        return false;
    }
    let mut i: usize = 0;
    while i < ca.len()
        invariant
            ca@ == a@,
            cb@ == b@,
            ca@.len() == cb@.len(),
            i <= ca@.len(),
            forall|k: int| 0 <= k < i ==> ca@[k] == cb@[k],
        decreases ca@.len() - i,
    {
        if ca[i] != cb[i] {
            return false;
        }
        i = i + 1;
    }
    assert(a@ =~= b@);
    true
}

/// The argument that follows the first occurrence of `flag`, if any.
pub fn find_arg<'a>(args: &'a [String], flag: &str) -> (r: Option<&'a str>)
    ensures
        match r {
            Some(v) => exists|i: int|
                is_first_match(args@, flag@, i) && i + 1 < args@.len() && v@ == (#[trigger] args@[i + 1])@,
            None => forall|i: int| #[trigger] is_first_match(args@, flag@, i) ==> i + 1 == args@.len(),
        },
{
    let mut i: usize = 0;
    while i < args.len()
        invariant
            i <= args@.len(),
            forall|j: int| 0 <= j < i ==> args@[j]@ != flag@,
        decreases args@.len() - i,
    {
        if str_eq(args[i].as_str(), flag) {
            assert(is_first_match(args@, flag@, i as int));
            if i + 1 < args.len() {
                return Some(args[i + 1].as_str());
            } else {
                return None;
            }
        }
        i = i + 1;
    }
    None
}

} // verus!
