//! A whitespace-separated token scanner over an in-memory byte buffer.
use vstd::prelude::*;

verus! {

/// ASCII whitespace as `u8::is_ascii_whitespace` defines it.
pub open spec fn is_space(b: u8) -> bool {
    b == 32u8 || b == 9u8 || b == 10u8 || b == 12u8 || b == 13u8
}

/// First index at or after `i` that holds no whitespace, or the length.
pub open spec fn skip_space(s: Seq<u8>, i: int) -> int
    decreases s.len() - i,
{
    if i < 0 || i >= s.len() || !is_space(s[i]) {
        i
    } else {
        skip_space(s, i + 1)
    }
}

/// First index at or after `i` that holds whitespace, or the length.
pub open spec fn word_end(s: Seq<u8>, i: int) -> int
    decreases s.len() - i,
{
    if i < 0 || i >= s.len() || is_space(s[i]) {
        i
    } else {
        word_end(s, i + 1)
    }
}

/// First index at or after `i` that holds a newline, or the length.
pub open spec fn line_end(s: Seq<u8>, i: int) -> int
    decreases s.len() - i,
{
    if i < 0 || i >= s.len() || s[i] == 10u8 {
        i
    } else {
        line_end(s, i + 1)
    }
}

/// The bounds of the next word at or after `i`, if any is left.
pub open spec fn next_word(s: Seq<u8>, i: int) -> Option<(int, int)> {
    let a = skip_space(s, i);
    if a >= s.len() {
        None
    } else {
        Some((a, word_end(s, a)))
    }
}

/// Where scanning stands after taking the next word from `i`.
pub open spec fn after_word(s: Seq<u8>, i: int) -> int {
    match next_word(s, i) {
        Some((_, b)) => b,
        None => s.len() as int,
    }
}

pub open spec fn is_digit(b: u8) -> bool {
    48u8 <= b <= 57u8
}

/// The number that a string of decimal digits writes.
pub open spec fn digits_value(w: Seq<u8>) -> nat
    decreases w.len(),
{
    if w.len() == 0 {
        0
    } else {
        digits_value(w.drop_last()) * 10 + (w.last() - 48u8) as nat
    }
}

/// One or more decimal digits whose value fits in a `usize`.
pub open spec fn parse_unsigned(w: Seq<u8>) -> Option<usize> {
    if w.len() > 0 && (forall|k: int| 0 <= k < w.len() ==> is_digit(#[trigger] w[k]))
        && digits_value(w) <= usize::MAX {
        Some(digits_value(w) as usize)
    } else {
        None
    }
}

/// A word read as a `usize`, as `str::parse` reads one: an optional `+`,
/// then one or more decimal digits whose value fits.
pub open spec fn parse_usize(w: Seq<u8>) -> Option<usize> {
    if w.len() > 0 && w[0] == 43u8 {
        parse_unsigned(w.drop_first())
    } else {
        parse_unsigned(w)
    }
}

/// The word at `i` read as a number, with where scanning stands after it.
pub open spec fn next_usize(s: Seq<u8>, i: int) -> Option<(usize, int)> {
    match next_word(s, i) {
        Some((a, b)) => match parse_usize(s.subrange(a, b)) {
            Some(v) => Some((v, b)),
            None => None,
        },
        None => None,
    }
}

proof fn lemma_digits_grow(w: Seq<u8>, k: int)
    requires
        0 <= k <= w.len(),
        forall|j: int| 0 <= j < w.len() ==> is_digit(#[trigger] w[j]),
    ensures
        digits_value(w.subrange(0, k)) <= digits_value(w),
    decreases w.len() - k,
{
    if k < w.len() {
        lemma_digits_grow(w, k + 1);
        assert(w.subrange(0, k + 1).drop_last() =~= w.subrange(0, k));
    } else {
        assert(w.subrange(0, k) =~= w);
    }
}

/// Reads `s[a..b]` as a `usize`: an optional `+`, then decimal digits
/// whose value fits.
pub fn parse_digits(s: &Vec<u8>, a: usize, b: usize) -> (r: Option<usize>)
    requires
        a <= b <= s@.len(),
    ensures
        r == parse_usize(s@.subrange(a as int, b as int)),
{
    if a < b && s[a] == 43u8 {
        assert(s@.subrange(a as int, b as int).drop_first() =~= s@.subrange(a + 1, b as int));
        parse_unsigned_digits(s, a + 1, b)
    } else {
        parse_unsigned_digits(s, a, b)
    }
}

/// Reads the value of the digits in `s[a..b]`, if it is a number that fits.
fn parse_unsigned_digits(s: &Vec<u8>, a: usize, b: usize) -> (r: Option<usize>)
    requires
        a <= b <= s@.len(),
    ensures
        r == parse_unsigned(s@.subrange(a as int, b as int)),
{
    let ghost w = s@.subrange(a as int, b as int);
    if a == b {
        return None;
    }
    let mut v: usize = 0;
    let mut i: usize = a;
    while i < b
        invariant
            a <= i <= b <= s@.len(),
            w == s@.subrange(a as int, b as int),
            forall|j: int| a <= j < i ==> is_digit(#[trigger] s@[j]),
            v as nat == digits_value(s@.subrange(a as int, i as int)),
        decreases b - i,
    {
        let c = s[i];
        if c < 48u8 || c > 57u8 {
            assert(!is_digit(w[i - a]));
            return None;
        }
        let d: usize = (c - 48u8) as usize;
        assert(s@.subrange(a as int, i + 1).drop_last() =~= s@.subrange(a as int, i as int));
        if v > (usize::MAX - d) / 10 {
            proof {
                assert(v * 10 + d > usize::MAX) by (nonlinear_arith)
                    requires v > (usize::MAX - d) / 10, d <= 9;
                if forall|j: int| 0 <= j < w.len() ==> is_digit(#[trigger] w[j]) {
                    lemma_digits_grow(w, i + 1 - a);
                    assert(w.subrange(0, i + 1 - a) =~= s@.subrange(a as int, i + 1));
                }
            }
            return None;
        }
        proof {
            assert(v * 10 + d <= usize::MAX) by (nonlinear_arith)
                requires v <= (usize::MAX - d) / 10, d <= 9;
        }
        v = v * 10 + d;
        i = i + 1;
    }
    assert(s@.subrange(a as int, i as int) =~= w);
    Some(v)
}

/// A cursor over a byte buffer that hands out whitespace-separated words.
pub struct Scanner {
    buf: Vec<u8>,
    pos: usize,
}

impl Scanner {
    /// The bytes being scanned.
    pub closed spec fn bytes(&self) -> Seq<u8> {
        self.buf@
    }

    /// How far scanning has come.
    pub closed spec fn position(&self) -> int {
        self.pos as int
    }

    pub open spec fn wf(&self) -> bool {
        0 <= self.position() <= self.bytes().len()
    }

    /// Starts scanning `buf` at its first byte.
    pub fn new(buf: Vec<u8>) -> (r: Scanner)
        ensures
            r.bytes() == buf@,
            r.position() == 0,
            r.wf(),
    {
        Scanner { buf, pos: 0 }
    }

    /// Moves past whitespace.
    fn skip_spaces(&mut self)
        requires
            old(self).wf(),
        ensures
            final(self).wf(),
            final(self).bytes() == old(self).bytes(),
            final(self).position() == skip_space(old(self).bytes(), old(self).position()),
    {
        let ghost s = self.buf@;
        let ghost target = skip_space(s, self.pos as int);
        while self.pos < self.buf.len() && !(self.buf[self.pos] != 32u8 && self.buf[self.pos] != 9u8
            && self.buf[self.pos] != 10u8 && self.buf[self.pos] != 12u8 && self.buf[self.pos] != 13u8)
            invariant
                self.buf@ == s,
                self.pos <= s.len(),
                skip_space(s, self.pos as int) == target,
            decreases s.len() - self.pos,
        {
            self.pos = self.pos + 1;
        }
    }

    /// Takes the next word and returns its bounds, or `None` when only
    /// whitespace is left.
    pub fn next_bounds(&mut self) -> (r: Option<(usize, usize)>)
        requires
            old(self).wf(),
        ensures
            final(self).wf(),
            final(self).bytes() == old(self).bytes(),
            final(self).position() == after_word(old(self).bytes(), old(self).position()),
            match r {
                Some((a, b)) => a <= b <= old(self).bytes().len() && next_word(old(self).bytes(), old(self).position()) == Some(
                    (a as int, b as int),
                ),
                None => next_word(old(self).bytes(), old(self).position()) is None,
            },
    {
        self.skip_spaces();
        let ghost s = self.buf@;
        if self.pos >= self.buf.len() {
            return None;
        }
        let a = self.pos;
        while self.pos < self.buf.len() && self.buf[self.pos] != 32u8 && self.buf[self.pos] != 9u8
            && self.buf[self.pos] != 10u8 && self.buf[self.pos] != 12u8 && self.buf[self.pos] != 13u8
            invariant
                self.buf@ == s,
                a <= self.pos <= s.len(),
                word_end(s, self.pos as int) == word_end(s, a as int),
            decreases s.len() - self.pos,
        {
            self.pos = self.pos + 1;
        }
        Some((a, self.pos))
    }

    /// Takes the next word as bytes.
    pub fn token_bytes(&mut self) -> (r: Option<Vec<u8>>)
        requires
            old(self).wf(),
        ensures
            final(self).wf(),
            final(self).bytes() == old(self).bytes(),
            final(self).position() == after_word(old(self).bytes(), old(self).position()),
            match next_word(old(self).bytes(), old(self).position()) {
                Some((a, b)) => r is Some && r->0@ == old(self).bytes().subrange(a, b),
                None => r is None,
            },
    {
        match self.next_bounds() {
            None => None,
            Some((a, b)) => {
                let mut w: Vec<u8> = Vec::new();
                let mut i: usize = a;
                while i < b
                    invariant
                        a <= i <= b <= self.buf@.len(),
                        w@ == self.buf@.subrange(a as int, i as int),
                    decreases b - i,
                {
                    w.push(self.buf[i]);
                    i = i + 1;
                    assert(w@ =~= self.buf@.subrange(a as int, i as int));
                }
                Some(w)
            },
        }
    }

    /// Takes the next word and reads it as a `usize`.
    pub fn token_usize(&mut self) -> (r: Option<usize>)
        requires
            old(self).wf(),
        ensures
            final(self).wf(),
            final(self).bytes() == old(self).bytes(),
            final(self).position() == after_word(old(self).bytes(), old(self).position()),
            r == (match next_usize(old(self).bytes(), old(self).position()) {
                Some((v, _)) => Some(v),
                None => None,
            }),
    {
        match self.next_bounds() {
            None => None,
            Some((a, b)) => parse_digits(&self.buf, a, b),
        }
    }

    /// Takes what is left of the current line, up to its newline.
    pub fn rest_of_line(&mut self) -> (r: Vec<u8>)
        requires
            old(self).wf(),
        ensures
            final(self).wf(),
            final(self).bytes() == old(self).bytes(),
            final(self).position() == line_end(old(self).bytes(), old(self).position()),
            r@ == old(self).bytes().subrange(
                old(self).position(),
                line_end(old(self).bytes(), old(self).position()),
            ),
    {
        let ghost s = self.buf@;
        let a = self.pos;
        let mut w: Vec<u8> = Vec::new();
        while self.pos < self.buf.len() && self.buf[self.pos] != 10u8
            invariant
                self.buf@ == s,
                a <= self.pos <= s.len(),
                line_end(s, self.pos as int) == line_end(s, a as int),
                w@ == s.subrange(a as int, self.pos as int),
            decreases s.len() - self.pos,
        {
            w.push(self.buf[self.pos]);
            self.pos = self.pos + 1;
            assert(w@ =~= s.subrange(a as int, self.pos as int));
        }
        w
    }
}

} // verus!
