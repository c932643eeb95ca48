//! The lists of event identifiers, and which events a replay takes.
use vstd::prelude::*;
use crate::scanner::{Scanner, next_usize, after_word};

verus! {

/// `n` numbers read one after another from position `i`.
pub open spec fn read_numbers(s: Seq<u8>, i: int, n: nat) -> Option<Seq<usize>>
    decreases n,
{
    if n == 0 {
        Some(Seq::empty())
    } else {
        match next_usize(s, i) {
            None => None,
            Some((v, j)) => match read_numbers(s, j, (n - 1) as nat) {
                None => None,
                Some(rest) => Some(seq![v] + rest),
            },
        }
    }
}

/// A list written as its length followed by that many numbers.
pub open spec fn id_list(s: Seq<u8>) -> Option<Seq<usize>> {
    match next_usize(s, 0) {
        None => None,
        Some((n, j)) => read_numbers(s, j, n as nat),
    }
}

/// The entries of `all`, in order, that `dropped` does not hold.
pub open spec fn without(all: Seq<usize>, dropped: Seq<usize>) -> Seq<usize>
    decreases all.len(),
{
    if all.len() == 0 {
        all
    } else {
        let p = without(all.drop_last(), dropped);
        if dropped.contains(all.last()) {
            p
        } else {
            p.push(all.last())
        }
    }
}

/// The suffix of `s` that starts at the first occurrence of `x`; empty when
/// `x` does not occur.
pub open spec fn since(s: Seq<usize>, x: usize) -> Seq<usize>
    decreases s.len(),
{
    if s.len() == 0 {
        s
    } else if s[0] == x {
        s
    } else {
        since(s.drop_first(), x)
    }
}

/// The events to replay: the ids of the second list that the first omits.
pub open spec fn replay_events(team: Seq<u8>, all: Seq<u8>) -> Option<Seq<usize>> {
    match (id_list(team), id_list(all)) {
        (Some(t), Some(a)) => Some(without(a, t)),
        _ => None,
    }
}

/// Whether `v` holds `x`.
pub fn contains_id(v: &Vec<usize>, x: usize) -> (r: bool)
    ensures
        r == v@.contains(x),
{
    let mut i: usize = 0;
    while i < v.len()
        invariant
            i <= v@.len(),
            forall|j: int| 0 <= j < i ==> v@[j] != x,
        decreases v.len() - i,
    {
        if v[i] == x {
            return true;
        }
        i = i + 1;
    }
    false
}

/// Reads `n` numbers from the scanner.
pub fn read_ids(scan: &mut Scanner, n: usize) -> (r: Option<Vec<usize>>)
    requires
        old(scan).wf(),
    ensures
        final(scan).wf(),
        final(scan).bytes() == old(scan).bytes(),
        match r {
            Some(v) => read_numbers(old(scan).bytes(), old(scan).position(), n as nat) == Some(v@),
            None => read_numbers(old(scan).bytes(), old(scan).position(), n as nat) is None,
        },
{
    let ghost s = scan.bytes();
    let ghost p0 = scan.position();
    let mut acc: Vec<usize> = Vec::new();
    let mut k: usize = 0;
    while k < n
        invariant
            scan.wf(),
            scan.bytes() == s,
            s == old(scan).bytes(),
            p0 == old(scan).position(),
            k <= n,
            read_numbers(s, p0, n as nat) == (match read_numbers(s, scan.position(), (n - k) as nat) {
                Some(rest) => Some(acc@ + rest),
                None => None,
            }),
        decreases n - k,
    {
        let ghost p = scan.position();
        let t = scan.token_usize();
        match t {
            None => {
                return None;
            },
            Some(v) => {
                proof {
                    let j = after_word(s, p);
                    assert(next_usize(s, p) == Some((v, j)));
                    match read_numbers(s, j, (n - k - 1) as nat) {
                        Some(rest) => {
                            assert(acc@ + (seq![v] + rest) =~= acc@.push(v) + rest);
                        },
                        None => {},
                    }
                }
                acc.push(v);
                k = k + 1;
            },
        }
    }
    assert(acc@ + Seq::<usize>::empty() =~= acc@);
    Some(acc)
}

/// Reads a list written as its length followed by that many numbers.
pub fn parse_id_list(text: Vec<u8>) -> (r: Option<Vec<usize>>)
    ensures
        match r {
            Some(v) => id_list(text@) == Some(v@),
            None => id_list(text@) is None,
        },
{
    let mut scan = Scanner::new(text);
    match scan.token_usize() {
        None => None,
        Some(n) => read_ids(&mut scan, n),
    }
}

/// The ids of `all`, in order, that `dropped` does not hold.
pub fn remove_ids(all: &Vec<usize>, dropped: &Vec<usize>) -> (r: Vec<usize>)
    ensures
        r@ == without(all@, dropped@),
{
    let mut out: Vec<usize> = Vec::new();
    let mut i: usize = 0;
    while i < all.len()
        invariant
            i <= all@.len(),
            out@ == without(all@.subrange(0, i as int), dropped@),
        decreases all.len() - i,
    {
        assert(all@.subrange(0, i + 1).drop_last() =~= all@.subrange(0, i as int));
        if !contains_id(dropped, all[i]) {
            out.push(all[i]);
        }
        i = i + 1;
    }
    assert(all@.subrange(0, i as int) =~= all@);
    out
}

/// The events to replay, in the order the complete list gives them: the ids
/// of `all_text` that `team_text` does not list. Each text is a count
/// followed by that many ids; `None` when either is malformed or short.
pub fn get_contests(team_text: Vec<u8>, all_text: Vec<u8>) -> (r: Option<Vec<usize>>)
    ensures
        match r {
            Some(v) => replay_events(team_text@, all_text@) == Some(v@),
            None => replay_events(team_text@, all_text@) is None,
        },
{
    let team = parse_id_list(team_text);
    let all = parse_id_list(all_text);
    match (team, all) {
        (Some(t), Some(a)) => Some(remove_ids(&a, &t)),
        _ => None,
    }
}

/// The events from the first occurrence of `first` on; empty when `first`
/// is not among them.
pub fn events_since(events: &Vec<usize>, first: usize) -> (r: Vec<usize>)
    ensures
        r@ == since(events@, first),
{
    let n = events.len();
    let mut i: usize = 0;
    assert(events@.subrange(0, n as int) =~= events@);
    while i < n && events[i] != first
        invariant
            i <= n == events@.len(),
            since(events@, first) == since(events@.subrange(i as int, n as int), first),
        decreases n - i,
    {
        assert(events@.subrange(i as int, n as int).drop_first() =~= events@.subrange(
            i + 1,
            n as int,
        ));
        i = i + 1;
    }
    let mut out: Vec<usize> = Vec::new();
    let mut k: usize = i;
    while k < n
        invariant
            i <= k <= n == events@.len(),
            out@ == events@.subrange(i as int, k as int),
        decreases n - k,
    {
        out.push(events[k]);
        k = k + 1;
        assert(out@ =~= events@.subrange(i as int, k as int));
    }
    out
}

} // verus!
