//! One event's standings: reading them, checking their rank ranges, and the
//! contestants that pull each performance up or down.
use vstd::prelude::*;
use crate::scanner::{Scanner, next_word, next_usize, line_end, after_word};

verus! {

/// One contestant's place: its handle and the 0-based range of positions it
/// shares with those it tied.
pub struct Standing {
    pub handle: Vec<u8>,
    pub rank_lo: usize,
    pub rank_hi: usize,
}

/// The standings of one event, best first.
pub struct Standings {
    pub title: Vec<u8>,
    pub entries: Vec<Standing>,
}

#[derive(Debug, Clone, Copy, PartialEq, Eq)]
pub enum StandingsError {
    /// The contestant count is missing or is no number.
    MissingCount,
    /// Fewer entries than the count, or an entry whose ranks are no numbers.
    MalformedEntry,
    /// The entry at this position has a rank range that does not hold it.
    RankOutOfRange(usize),
}

/// An entry as written: handle, and 1-based lowest and highest rank.
pub type RawEntry = (Seq<u8>, usize, usize);

/// `n` entries read one after another from position `i`.
pub open spec fn read_entries(s: Seq<u8>, i: int, n: nat) -> Option<Seq<RawEntry>>
    decreases n,
{
    if n == 0 {
        Some(Seq::empty())
    } else {
        match next_word(s, i) {
            None => None,
            Some((a, b)) => match next_usize(s, b) {
                None => None,
                Some((lo, j)) => match next_usize(s, j) {
                    None => None,
                    Some((hi, k)) => match read_entries(s, k, (n - 1) as nat) {
                        None => None,
                        Some(rest) => Some(seq![(s.subrange(a, b), lo, hi)] + rest),
                    },
                },
            },
        }
    }
}

/// The title: what follows the count on its line.
pub open spec fn title_of(s: Seq<u8>) -> Seq<u8> {
    match next_usize(s, 0) {
        Some((_, j)) => s.subrange(j, line_end(s, j)),
        None => Seq::empty(),
    }
}

/// The entries that follow the title line, as written.
pub open spec fn raw_entries(s: Seq<u8>) -> Option<Seq<RawEntry>> {
    match next_usize(s, 0) {
        Some((n, j)) => read_entries(s, line_end(s, j), n as nat),
        None => None,
    }
}

/// A 1-based rank range `[lo, hi]` holds position `i` of `n` (0-based).
pub open spec fn valid_rank(lo: usize, hi: usize, i: int, n: int) -> bool {
    1 <= lo && lo <= i + 1 && i + 1 <= hi && hi <= n
}

pub open spec fn entry_ok(raw: Seq<RawEntry>, i: int) -> bool {
    valid_rank(raw[i].1, raw[i].2, i, raw.len() as int)
}

impl Standings {
    /// Every entry's 0-based range holds its own position and stays below
    /// the number of contestants.
    pub open spec fn wf(&self) -> bool {
        forall|i: int|
            0 <= i < self.entries@.len() ==> #[trigger] self.entries@[i].rank_lo <= i
                && i <= self.entries@[i].rank_hi && self.entries@[i].rank_hi
                < self.entries@.len()
    }

    /// Positions strictly better than the whole tie range of entry `i`.
    pub open spec fn better_set(&self, i: int) -> Set<int> {
        Set::new(|j: int| 0 <= j < self.entries@[i].rank_lo)
    }

    /// Positions strictly worse than the whole tie range of entry `i`.
    pub open spec fn worse_set(&self, i: int) -> Set<int> {
        Set::new(|j: int| self.entries@[i].rank_hi < j < self.entries@.len())
    }

    /// The positions that pull entry `i` up, `[0, better_end)`, and those
    /// that pull it down, `[worse_start, count)`, as `(better_end,
    /// worse_start, count)`.
    pub fn pull_ranges(&self, i: usize) -> (r: (usize, usize, usize))
        requires
            self.wf(),
            i < self.entries@.len(),
        ensures
            r.2 == self.entries@.len(),
            forall|j: int| #![auto] self.better_set(i as int).contains(j) <==> 0 <= j < r.0,
            forall|j: int| #![auto] self.worse_set(i as int).contains(j) <==> r.1 <= j < r.2,
    {
        let n = self.entries.len();
        let e = &self.entries[i];
        assert(self.entries@[i as int].rank_lo <= i);
        (e.rank_lo, e.rank_hi + 1, n)
    }
}

/// Contestants tied over the same rank range are pulled by the same
/// contestants: their better and worse sets agree, and hold neither of them.
pub proof fn lemma_tie_symmetry(st: &Standings, i: int, j: int)
    requires
        st.wf(),
        0 <= i < st.entries@.len(),
        0 <= j < st.entries@.len(),
        st.entries@[i].rank_lo == st.entries@[j].rank_lo,
        st.entries@[i].rank_hi == st.entries@[j].rank_hi,
    ensures
        st.better_set(i) == st.better_set(j),
        st.worse_set(i) == st.worse_set(j),
        !st.better_set(i).contains(i) && !st.better_set(i).contains(j),
        !st.worse_set(i).contains(i) && !st.worse_set(i).contains(j),
{
    assert(st.better_set(i) =~= st.better_set(j));
    assert(st.worse_set(i) =~= st.worse_set(j));
}

/// Of two untied contestants, the better placed one has a subset of the
/// other's better set and a superset of its worse set, and each lies on the
/// other's side: every pull up on the better one also pulls up the worse one.
pub proof fn lemma_better_rank_pulls(st: &Standings, a: int, b: int)
    requires
        st.wf(),
        0 <= a < st.entries@.len(),
        0 <= b < st.entries@.len(),
        st.entries@[a].rank_lo == st.entries@[a].rank_hi,
        st.entries@[b].rank_lo == st.entries@[b].rank_hi,
        st.entries@[a].rank_hi < st.entries@[b].rank_lo,
    ensures
        st.better_set(a).subset_of(st.better_set(b)),
        st.worse_set(b).subset_of(st.worse_set(a)),
        st.better_set(b).contains(a),
        st.worse_set(a).contains(b),
{
}

proof fn lemma_read_entries_len(s: Seq<u8>, i: int, n: nat)
    ensures
        read_entries(s, i, n) is Some ==> read_entries(s, i, n)->0.len() == n,
    decreases n,
{
    if n > 0 {
        match next_word(s, i) {
            None => {},
            Some((a, b)) => match next_usize(s, b) {
                None => {},
                Some((lo, j)) => match next_usize(s, j) {
                    None => {},
                    Some((hi, k)) => lemma_read_entries_len(s, k, (n - 1) as nat),
                },
            },
        }
    }
}

/// Reads `n` entries as written.
fn read_raw(scan: &mut Scanner, n: usize) -> (r: Option<Vec<Standing>>)
    requires
        old(scan).wf(),
    ensures
        match r {
            Some(v) => read_entries(old(scan).bytes(), old(scan).position(), n as nat) is Some
                && v@.len() == read_entries(old(scan).bytes(), old(scan).position(), n as nat)->0.len()
                && forall|k: int| 0 <= k < v@.len() ==> (#[trigger] v@[k]).handle@ == read_entries(
                    old(scan).bytes(), old(scan).position(), n as nat)->0[k].0
                    && v@[k].rank_lo == read_entries(old(scan).bytes(), old(scan).position(), n as nat)->0[k].1
                    && v@[k].rank_hi == read_entries(old(scan).bytes(), old(scan).position(), n as nat)->0[k].2,
            None => read_entries(old(scan).bytes(), old(scan).position(), n as nat) is None,
        },
{
    let ghost s = scan.bytes();
    let ghost p0 = scan.position();
    let ghost mut seen: Seq<RawEntry> = Seq::empty();
    let mut acc: Vec<Standing> = Vec::new();
    let mut k: usize = 0;
    while k < n
        invariant
            scan.wf(),
            scan.bytes() == s,
            s == old(scan).bytes(),
            p0 == old(scan).position(),
            k <= n,
            seen.len() == acc@.len(),
            forall|m: int| 0 <= m < acc@.len() ==> (#[trigger] acc@[m]).handle@ == seen[m].0
                && acc@[m].rank_lo == seen[m].1 && acc@[m].rank_hi == seen[m].2,
            read_entries(s, p0, n as nat) == (match read_entries(s, scan.position(), (n - k) as nat) {
                Some(rest) => Some(seen + rest),
                None => None,
            }),
        decreases n - k,
    {
        let ghost p = scan.position();
        let handle = match scan.token_bytes() {
            Some(h) => h,
            None => {
                return None;
            },
        };
        let ghost p1 = scan.position();
        let lo = match scan.token_usize() {
            Some(x) => x,
            None => {
                return None;
            },
        };
        let ghost p2 = scan.position();
        let hi = match scan.token_usize() {
            Some(x) => x,
            None => {
                return None;
            },
        };
        proof {
            let e: RawEntry = (handle@, lo, hi);
            assert(next_usize(s, p1) == Some((lo, p2)));
            assert(next_usize(s, p2) == Some((hi, after_word(s, p2))));
            match read_entries(s, after_word(s, p2), (n - k - 1) as nat) {
                Some(rest) => {
                    assert(seen + (seq![e] + rest) =~= seen.push(e) + rest);
                },
                None => {},
            }
            seen = seen.push(e);
        }
        acc.push(Standing { handle, rank_lo: lo, rank_hi: hi });
        k = k + 1;
    }
    assert(seen + Seq::<RawEntry>::empty() =~= seen);
    Some(acc)
}

/// Reads one event's standings: a contestant count, a title on the rest of
/// that line, then for each contestant its handle and its 1-based lowest
/// and highest rank. The ranks come back 0-based. Fails on a missing count,
/// on a short or malformed entry, and at the first entry whose rank range
/// does not hold its own position within the count.
pub fn parse_standings(text: Vec<u8>) -> (r: Result<Standings, StandingsError>)
    ensures
        match r {
            Err(StandingsError::MissingCount) => next_usize(text@, 0) is None,
            Err(StandingsError::MalformedEntry) => next_usize(text@, 0) is Some
                && raw_entries(text@) is None,
            Err(StandingsError::RankOutOfRange(i)) => raw_entries(text@) is Some
                && i < raw_entries(text@)->0.len()
                && !entry_ok(raw_entries(text@)->0, i as int)
                && forall|j: int| 0 <= j < i ==> entry_ok(raw_entries(text@)->0, j),
            Ok(st) => raw_entries(text@) is Some
                && (forall|j: int| 0 <= j < raw_entries(text@)->0.len() ==> entry_ok(raw_entries(text@)->0, j))
                && st.wf()
                && st.title@ == title_of(text@)
                && st.entries@.len() == raw_entries(text@)->0.len()
                && forall|k: int| 0 <= k < st.entries@.len() ==> (#[trigger] st.entries@[k]).handle@
                    == raw_entries(text@)->0[k].0
                    && st.entries@[k].rank_lo + 1 == raw_entries(text@)->0[k].1
                    && st.entries@[k].rank_hi + 1 == raw_entries(text@)->0[k].2,
        },
{
    let ghost s = text@;
    let mut scan = Scanner::new(text);
    let n = match scan.token_usize() {
        Some(n) => n,
        None => {
            return Err(StandingsError::MissingCount);
        },
    };
    assert(next_usize(s, 0) == Some((n, after_word(s, 0))));
    let title = scan.rest_of_line();
    assert(scan.position() == line_end(s, after_word(s, 0)));
    let raw = match read_raw(&mut scan, n) {
        Some(v) => v,
        None => {
            return Err(StandingsError::MalformedEntry);
        },
    };
    let ghost rs = raw_entries(s)->0;
    proof {
        lemma_read_entries_len(s, line_end(s, after_word(s, 0)), n as nat);
    }
    let mut i: usize = 0;
    while i < n
        invariant
            rs.len() == n == raw@.len(),
            s == text@,
            raw_entries(s) == Some(rs),
            title@ == title_of(s),
            i <= n,
            forall|k: int| 0 <= k < n ==> (#[trigger] raw@[k]).handle@ == rs[k].0
                && raw@[k].rank_lo == rs[k].1 && raw@[k].rank_hi == rs[k].2,
            forall|j: int| 0 <= j < i ==> entry_ok(rs, j),
        decreases n - i,
    {
        let lo = raw[i].rank_lo;
        let hi = raw[i].rank_hi;
        assert(rs[i as int].1 == lo && rs[i as int].2 == hi);
        if !(1 <= lo && lo <= i + 1 && i + 1 <= hi && hi <= n) {
            assert(!entry_ok(rs, i as int));
            return Err(StandingsError::RankOutOfRange(i));
        }
        i = i + 1;
    }
    let mut entries: Vec<Standing> = Vec::new();
    let mut k: usize = 0;
    while k < n
        invariant
            rs.len() == n == raw@.len(),
            s == text@,
            raw_entries(s) == Some(rs),
            title@ == title_of(s),
            k <= n,
            forall|m: int| 0 <= m < n ==> (#[trigger] raw@[m]).handle@ == rs[m].0
                && raw@[m].rank_lo == rs[m].1 && raw@[m].rank_hi == rs[m].2,
            forall|j: int| 0 <= j < n ==> entry_ok(rs, j),
            entries@.len() == k,
            forall|m: int| 0 <= m < k ==> (#[trigger] entries@[m]).handle@ == rs[m].0
                && entries@[m].rank_lo + 1 == rs[m].1 && entries@[m].rank_hi + 1 == rs[m].2
                && entries@[m].rank_lo <= m && m <= entries@[m].rank_hi && entries@[m].rank_hi < n,
        decreases n - k,
    {
        let handle = raw[k].handle.clone();
        assert(handle@ =~= raw@[k as int].handle@);
        assert(entry_ok(rs, k as int));
        entries.push(Standing { handle, rank_lo: raw[k].rank_lo - 1, rank_hi: raw[k].rank_hi - 1 });
        k = k + 1;
    }
    Ok(Standings { title, entries })
}

} // verus!
