//! Reading whitespace-separated tokens from input held in memory.
use vstd::prelude::*;
use std::collections::{HashSet, VecDeque};

verus! {

/// Space, tab, line feed and carriage return separate tokens.
pub open spec fn is_space(b: u8) -> bool {
    b == 32 || b == 9 || b == 10 || b == 13
}

/// The first position at or after `pos` that is not a space (or the end).
pub open spec fn skip_from(buf: Seq<u8>, pos: int) -> int
    decreases buf.len() - pos,
{
    if pos >= buf.len() || pos < 0 {
        buf.len() as int
    } else if is_space(buf[pos]) {
        skip_from(buf, pos + 1)
    } else {
        pos
    }
}

/// The first position at or after `pos` that is a space (or the end).
pub open spec fn end_from(buf: Seq<u8>, pos: int) -> int
    decreases buf.len() - pos,
{
    if pos >= buf.len() || pos < 0 {
        buf.len() as int
    } else if !is_space(buf[pos]) {
        end_from(buf, pos + 1)
    } else {
        pos
    }
}

/// The token at or after `pos`, and the position just after it; `None` when only spaces
/// are left.
pub open spec fn next_token(buf: Seq<u8>, pos: int) -> Option<(Seq<u8>, int)> {
    let s = skip_from(buf, pos);
    if s >= buf.len() {
        None
    } else {
        let e = end_from(buf, s);
        Some((buf.subrange(s, e), e))
    }
}

/// The value of a string of decimal digits; `None` if it is empty or holds anything else.
pub open spec fn digits_value(t: Seq<u8>) -> Option<nat>
    decreases t.len(),
{
    if t.len() == 0 {
        None
    } else if !(48 <= t.last() <= 57) {
        None
    } else if t.len() == 1 {
        Some((t.last() - 48) as nat)
    } else {
        match digits_value(t.drop_last()) {
            Some(v) => Some(v * 10 + (t.last() - 48) as nat),
            None => None,
        }
    }
}

/// The `usize` that the token writes, if it writes one.
pub open spec fn usize_of(t: Seq<u8>) -> Option<usize> {
    match digits_value(t) {
        Some(v) => if v <= usize::MAX {
            Some(v as usize)
        } else {
            None
        },
        None => None,
    }
}

/// The `i32` that the token writes (digits after an optional sign), if it writes one.
pub open spec fn i32_of(t: Seq<u8>) -> Option<i32> {
    let (neg, digits) = if t.len() > 0 && t[0] == 45 {
        (true, t.subrange(1, t.len() as int))
    } else if t.len() > 0 && t[0] == 43 {
        (false, t.subrange(1, t.len() as int))
    } else {
        (false, t)
    };
    match digits_value(digits) {
        Some(v) => {
            let x = if neg { -(v as int) } else { v as int };
            if i32::MIN <= x <= i32::MAX {
                Some(x as i32)
            } else {
                None
            }
        },
        None => None,
    }
}

/// Reading one `usize`: the value (if the token writes one) and the position after it.
pub open spec fn read_u(buf: Seq<u8>, pos: int) -> (Option<usize>, int) {
    match next_token(buf, pos) {
        Some((t, e)) => (usize_of(t), e),
        None => (None, buf.len() as int),
    }
}

/// Reading one `i32`: the value (if the token writes one) and the position after it.
pub open spec fn read_i(buf: Seq<u8>, pos: int) -> (Option<i32>, int) {
    match next_token(buf, pos) {
        Some((t, e)) => (i32_of(t), e),
        None => (None, buf.len() as int),
    }
}

/// Reading `n` values of type `i32`, one after the other: all of them if every token
/// writes one, and the position after the last.
pub open spec fn read_many_i(buf: Seq<u8>, pos: int, n: nat) -> (Option<Seq<i32>>, int)
    decreases n,
{
    if n == 0 {
        (Some(Seq::empty()), pos)
    } else {
        let (head, p) = read_many_i(buf, pos, (n - 1) as nat);
        let (x, q) = read_i(buf, p);
        (
            match (head, x) {
                (Some(h), Some(v)) => Some(h.push(v)),
                _ => None,
            },
            q,
        )
    }
}

/// Reading `n` values of type `usize`, one after the other: all of them if every token
/// writes one, and the position after the last.
pub open spec fn read_many_u(buf: Seq<u8>, pos: int, n: nat) -> (Option<Seq<usize>>, int)
    decreases n,
{
    if n == 0 {
        (Some(Seq::empty()), pos)
    } else {
        let (head, p) = read_many_u(buf, pos, (n - 1) as nat);
        let (x, q) = read_u(buf, p);
        (
            match (head, x) {
                (Some(h), Some(v)) => Some(h.push(v)),
                _ => None,
            },
            q,
        )
    }
}

/// What `String::from_utf8` gives for these bytes: the text, if they are valid UTF-8.
pub uninterp spec fn utf8_text(b: Seq<u8>) -> Option<Seq<char>>;

/// Relies on `String::from_utf8`: the text of valid UTF-8 bytes, `None` otherwise.
#[verifier::external_body]
fn utf8_string(b: Vec<u8>) -> (r: Option<String>)
    ensures
        match utf8_text(b@) {
            Some(t) => r matches Some(s) && s@ == t,
            None => r is None,
        },
{
    String::from_utf8(b).ok()
}

/// The `i64` that the bytes write (digits after an optional sign), if they write one.
pub open spec fn i64_of(t: Seq<u8>) -> Option<i64> {
    let (neg, digits) = if t.len() > 0 && t[0] == 45 {
        (true, t.subrange(1, t.len() as int))
    } else if t.len() > 0 && t[0] == 43 {
        (false, t.subrange(1, t.len() as int))
    } else {
        (false, t)
    };
    match digits_value(digits) {
        Some(v) => {
            let x = if neg { -(v as int) } else { v as int };
            if i64::MIN <= x <= i64::MAX {
                Some(x as i64)
            } else {
                None
            }
        },
        None => None,
    }
}

/// The `i64` that the bytes write, if they write one.
pub fn parse_i64(t: &[u8]) -> (r: Option<i64>)
    ensures
        r == i64_of(t@),
{
    let neg = t.len() > 0 && t[0] == 45;
    let signed = t.len() > 0 && (t[0] == 45 || t[0] == 43);
    let digits = if signed { t.split_at(1).1 } else { t };
    proof {
        if signed {
            assert(digits@ == t@.subrange(1, t@.len() as int));
        }
    }
    let limit: u64 = if neg { 9223372036854775808 } else { 9223372036854775807 };
    match parse_digits(digits, limit) {
        Some(v) => {
            if neg {
                Some((-(v as i128)) as i64)
            } else {
                Some(v as i64)
            }
        },
        None => None,
    }
}

/// A reader of whitespace-separated tokens.
#[derive(Debug)]
pub struct Scanner {
    buf: Vec<u8>,
    pos: usize,
}

/// The value of the digits `t`, or `None` when it is not all digits or exceeds `limit`.
fn parse_digits(t: &[u8], limit: u64) -> (r: Option<u64>)
    ensures
        match digits_value(t@) {
            Some(v) => if v <= limit { r == Some(v as u64) } else { r is None },
            None => r is None,
        },
{
    if t.len() == 0 {
        return None;
    }
    let mut v: u64 = 0;
    let mut i: usize = 0;
    while i < t.len()
        invariant
            0 <= i <= t@.len(),
            t@.len() > 0,
            v <= limit,
            i > 0 ==> digits_value(t@.subrange(0, i as int)) == Some(v as nat),
        decreases t.len() - i,
    {
        let b = t[i];
        let ghost s = t@.subrange(0, i + 1);
        proof {
            assert(s.drop_last() == t@.subrange(0, i as int));
            assert(s.last() == b);
        }
        if b < 48 || b > 57 {
            proof {
                lemma_digits_prefix_none(t@, i + 1);
            }
            return None;
        }
        let d = (b - 48) as u64;
        if d > limit {
            proof {
                if i > 0 {
                    assert(v * 10 + d > limit) by (nonlinear_arith)
                        requires d > limit, v >= 0;
                }
                lemma_digits_prefix_big(t@, i + 1, limit as nat);
            }
            return None;
        }
        if i > 0 && v > (limit - d) / 10 {
            proof {
                assert(v * 10 + d > limit) by (nonlinear_arith)
                    requires v > (limit - d) / 10, d <= limit;
                lemma_digits_prefix_big(t@, i + 1, limit as nat);
            }
            return None;
        }
        proof {
            if i > 0 {
                assert(v * 10 + d <= limit) by (nonlinear_arith)
                    requires v <= (limit - d) / 10, d <= limit;
            }
        }
        v = if i == 0 { d } else { v * 10 + d };
        i += 1;
    }
    proof {
        assert(t@.subrange(0, t@.len() as int) == t@);
    }
    Some(v)
}

/// A prefix that is not all digits makes the whole not all digits.
proof fn lemma_digits_prefix_none(t: Seq<u8>, k: int)
    requires
        0 < k <= t.len(),
        digits_value(t.subrange(0, k)) is None,
    ensures
        digits_value(t) is None,
    decreases t.len() - k,
{
    if k < t.len() {
        assert(t.subrange(0, k + 1).drop_last() == t.subrange(0, k));
        lemma_digits_prefix_none(t, k + 1);
    } else {
        assert(t.subrange(0, k) == t);
    }
}

/// Appending digits never makes a value smaller.
proof fn lemma_digits_prefix_big(t: Seq<u8>, k: int, limit: nat)
    requires
        0 < k <= t.len(),
        match digits_value(t.subrange(0, k)) {
            Some(v) => v > limit,
            None => true,
        },
    ensures
        match digits_value(t) {
            Some(v) => v > limit,
            None => true,
        },
    decreases t.len() - k,
{
    if k < t.len() {
        assert(t.subrange(0, k + 1).drop_last() == t.subrange(0, k));
        lemma_digits_prefix_big(t, k + 1, limit);
    } else {
        assert(t.subrange(0, k) == t);
    }
}

impl Scanner {
    /// The input.
    pub closed spec fn input(&self) -> Seq<u8> {
        self.buf@
    }

    /// Where reading goes on.
    pub closed spec fn position(&self) -> int {
        self.pos as int
    }

    pub closed spec fn wf(&self) -> bool {
        self.pos <= self.buf@.len()
    }

    /// A scanner over `input`, from its start.
    pub fn new(input: Vec<u8>) -> (r: Scanner)
        ensures
            r.wf(),
            r.input() == input@,
            r.position() == 0,
    {
        Scanner { buf: input, pos: 0 }
    }

    /// The next token; `None` when only spaces are left.
    pub fn token(&mut self) -> (r: Option<Vec<u8>>)
        requires
            old(self).wf(),
        ensures
            final(self).wf(),
            final(self).input() == old(self).input(),
            match next_token(old(self).input(), old(self).position()) {
                Some((t, e)) => r matches Some(v) && v@ == t && final(self).position() == e,
                None => r is None && final(self).position() == old(self).input().len(),
            },
    {
        let ghost buf = self.buf@;
        let ghost p0 = self.pos as int;
        let n = self.buf.len();
        let mut s = self.pos;
        while s < n && (self.buf[s] == 32 || self.buf[s] == 9 || self.buf[s] == 10 || self.buf[s] == 13)
            invariant
                self.buf@ == buf,
                n == buf.len(),
                p0 <= s <= n,
                skip_from(buf, s as int) == skip_from(buf, p0),
            decreases n - s,
        {
            s += 1;
        }
        if s >= n {
            self.pos = n;
            return None;
        }
        let mut e = s;
        let mut t: Vec<u8> = Vec::new();
        while e < n && !(self.buf[e] == 32 || self.buf[e] == 9 || self.buf[e] == 10 || self.buf[e] == 13)
            invariant
                self.buf@ == buf,
                n == buf.len(),
                s <= e <= n,
                s < n,
                skip_from(buf, p0) == s,
                end_from(buf, e as int) == end_from(buf, s as int),
                t@ == buf.subrange(s as int, e as int),
            decreases n - e,
        {
            t.push(self.buf[e]);
            proof {
                assert(buf.subrange(s as int, e + 1) == buf.subrange(s as int, e as int).push(buf[e as int]));
            }
            e += 1;
        }
        self.pos = e;
        Some(t)
    }

    /// The next token read as a `usize`.
    pub fn u(&mut self) -> (r: Option<usize>)
        requires
            old(self).wf(),
        ensures
            final(self).wf(),
            final(self).input() == old(self).input(),
            match next_token(old(self).input(), old(self).position()) {
                Some((t, e)) => r == usize_of(t) && final(self).position() == e,
                None => r is None && final(self).position() == old(self).input().len(),
            },
    {
        match self.token() {
            Some(t) => match parse_digits(t.as_slice(), usize::MAX as u64) {
                Some(v) => Some(v as usize),
                None => None,
            },
            None => None,
        }
    }

    /// The next token read as an `i32`.
    pub fn i(&mut self) -> (r: Option<i32>)
        requires
            old(self).wf(),
        ensures
            final(self).wf(),
            final(self).input() == old(self).input(),
            match next_token(old(self).input(), old(self).position()) {
                Some((t, e)) => r == i32_of(t) && final(self).position() == e,
                None => r is None && final(self).position() == old(self).input().len(),
            },
    {
        match self.token() {
            Some(t) => {
                let neg = t.len() > 0 && t[0] == 45;
                let signed = t.len() > 0 && (t[0] == 45 || t[0] == 43);
                let digits = if signed { t.as_slice().split_at(1).1 } else { t.as_slice() };
                proof {
                    if signed {
                        assert(digits@ == t@.subrange(1, t@.len() as int));
                    }
                }
                let limit: u64 = if neg { 2147483648 } else { 2147483647 };
                match parse_digits(digits, limit) {
                    Some(v) => {
                        if neg {
                            Some((-(v as i64)) as i32)
                        } else {
                            Some(v as i32)
                        }
                    },
                    None => None,
                }
            },
            None => None,
        }
    }

    /// The next two tokens read as `usize`s.
    pub fn u2(&mut self) -> (r: Option<(usize, usize)>)
        requires
            old(self).wf(),
        ensures
            final(self).wf(),
            final(self).input() == old(self).input(),
            ({
                let (a, pos1) = read_u(old(self).input(), old(self).position());
                let (b, pos2) = read_u(old(self).input(), pos1);
                &&& r == if a is Some && b is Some { Some((a->Some_0, b->Some_0)) } else { None }
                &&& final(self).position() == pos2
            }),
    {
        let a = self.u();
        let b = self.u();
        match (a, b) {
            (Some(a), Some(b)) => Some((a, b)),
            _ => None,
        }
    }

    /// The next three tokens read as `usize`s.
    pub fn u3(&mut self) -> (r: Option<(usize, usize, usize)>)
        requires
            old(self).wf(),
        ensures
            final(self).wf(),
            final(self).input() == old(self).input(),
            ({
                let (a, pos1) = read_u(old(self).input(), old(self).position());
                let (b, pos2) = read_u(old(self).input(), pos1);
                let (c, pos3) = read_u(old(self).input(), pos2);
                &&& r == if a is Some && b is Some && c is Some {
                    Some((a->Some_0, b->Some_0, c->Some_0))
                } else {
                    None
                }
                &&& final(self).position() == pos3
            }),
    {
        let a = self.u();
        let b = self.u();
        let c = self.u();
        match (a, b, c) {
            (Some(a), Some(b), Some(c)) => Some((a, b, c)),
            _ => None,
        }
    }

    /// The next four tokens read as `usize`s.
    pub fn u4(&mut self) -> (r: Option<(usize, usize, usize, usize)>)
        requires
            old(self).wf(),
        ensures
            final(self).wf(),
            final(self).input() == old(self).input(),
            ({
                let (a, pos1) = read_u(old(self).input(), old(self).position());
                let (b, pos2) = read_u(old(self).input(), pos1);
                let (c, pos3) = read_u(old(self).input(), pos2);
                let (d, pos4) = read_u(old(self).input(), pos3);
                &&& r == if a is Some && b is Some && c is Some && d is Some {
                    Some((a->Some_0, b->Some_0, c->Some_0, d->Some_0))
                } else {
                    None
                }
                &&& final(self).position() == pos4
            }),
    {
        let a = self.u();
        let b = self.u();
        let c = self.u();
        let d = self.u();
        match (a, b, c, d) {
            (Some(a), Some(b), Some(c), Some(d)) => Some((a, b, c, d)),
            _ => None,
        }
    }

    /// The next two tokens read as `i32`s.
    pub fn i2(&mut self) -> (r: Option<(i32, i32)>)
        requires
            old(self).wf(),
        ensures
            final(self).wf(),
            final(self).input() == old(self).input(),
            ({
                let (a, pos1) = read_i(old(self).input(), old(self).position());
                let (b, pos2) = read_i(old(self).input(), pos1);
                &&& r == if a is Some && b is Some { Some((a->Some_0, b->Some_0)) } else { None }
                &&& final(self).position() == pos2
            }),
    {
        let a = self.i();
        let b = self.i();
        match (a, b) {
            (Some(a), Some(b)) => Some((a, b)),
            _ => None,
        }
    }

    /// The next three tokens read as `i32`s.
    pub fn i3(&mut self) -> (r: Option<(i32, i32, i32)>)
        requires
            old(self).wf(),
        ensures
            final(self).wf(),
            final(self).input() == old(self).input(),
            ({
                let (a, pos1) = read_i(old(self).input(), old(self).position());
                let (b, pos2) = read_i(old(self).input(), pos1);
                let (c, pos3) = read_i(old(self).input(), pos2);
                &&& r == if a is Some && b is Some && c is Some {
                    Some((a->Some_0, b->Some_0, c->Some_0))
                } else {
                    None
                }
                &&& final(self).position() == pos3
            }),
    {
        let a = self.i();
        let b = self.i();
        let c = self.i();
        match (a, b, c) {
            (Some(a), Some(b), Some(c)) => Some((a, b, c)),
            _ => None,
        }
    }

    /// The next four tokens read as `i32`s.
    pub fn i4(&mut self) -> (r: Option<(i32, i32, i32, i32)>)
        requires
            old(self).wf(),
        ensures
            final(self).wf(),
            final(self).input() == old(self).input(),
            ({
                let (a, pos1) = read_i(old(self).input(), old(self).position());
                let (b, pos2) = read_i(old(self).input(), pos1);
                let (c, pos3) = read_i(old(self).input(), pos2);
                let (d, pos4) = read_i(old(self).input(), pos3);
                &&& r == if a is Some && b is Some && c is Some && d is Some {
                    Some((a->Some_0, b->Some_0, c->Some_0, d->Some_0))
                } else {
                    None
                }
                &&& final(self).position() == pos4
            }),
    {
        let a = self.i();
        let b = self.i();
        let c = self.i();
        let d = self.i();
        match (a, b, c, d) {
            (Some(a), Some(b), Some(c), Some(d)) => Some((a, b, c, d)),
            _ => None,
        }
    }

    /// The next two tokens read as `i32`s.
    pub fn pair(&mut self) -> (r: Option<(i32, i32)>)
        requires
            old(self).wf(),
        ensures
            final(self).wf(),
            final(self).input() == old(self).input(),
            ({
                let (a, pos1) = read_i(old(self).input(), old(self).position());
                let (b, pos2) = read_i(old(self).input(), pos1);
                &&& r == if a is Some && b is Some { Some((a->Some_0, b->Some_0)) } else { None }
                &&& final(self).position() == pos2
            }),
    {
        self.i2()
    }

    /// The next three tokens read as `i32`s.
    pub fn triplet(&mut self) -> (r: Option<(i32, i32, i32)>)
        requires
            old(self).wf(),
        ensures
            final(self).wf(),
            final(self).input() == old(self).input(),
            ({
                let (a, pos1) = read_i(old(self).input(), old(self).position());
                let (b, pos2) = read_i(old(self).input(), pos1);
                let (c, pos3) = read_i(old(self).input(), pos2);
                &&& r == if a is Some && b is Some && c is Some {
                    Some((a->Some_0, b->Some_0, c->Some_0))
                } else {
                    None
                }
                &&& final(self).position() == pos3
            }),
    {
        self.i3()
    }

    /// The bytes of the next token.
    pub fn bytes(&mut self) -> (r: Option<Vec<u8>>)
        requires
            old(self).wf(),
        ensures
            final(self).wf(),
            final(self).input() == old(self).input(),
            match next_token(old(self).input(), old(self).position()) {
                Some((t, e)) => r matches Some(v) && v@ == t && final(self).position() == e,
                None => r is None && final(self).position() == old(self).input().len(),
            },
    {
        self.token()
    }

    /// The next token as text, if it is valid UTF-8.
    pub fn string(&mut self) -> (r: Option<String>)
        requires
            old(self).wf(),
        ensures
            final(self).wf(),
            final(self).input() == old(self).input(),
            match next_token(old(self).input(), old(self).position()) {
                Some((t, e)) => final(self).position() == e && match utf8_text(t) {
                    Some(text) => r matches Some(s) && s@ == text,
                    None => r is None,
                },
                None => r is None && final(self).position() == old(self).input().len(),
            },
    {
        match self.token() {
            Some(t) => utf8_string(t),
            None => None,
        }
    }

    /// The characters of the next token, if it is valid UTF-8.
    pub fn chars(&mut self) -> (r: Option<Vec<char>>)
        requires
            old(self).wf(),
        ensures
            final(self).wf(),
            final(self).input() == old(self).input(),
            match next_token(old(self).input(), old(self).position()) {
                Some((t, e)) => final(self).position() == e && match utf8_text(t) {
                    Some(text) => r matches Some(v) && v@ == text,
                    None => r is None,
                },
                None => r is None && final(self).position() == old(self).input().len(),
            },
    {
        match self.string() {
            Some(s) => {
                let t = s.as_str();
                let n = t.unicode_len();
                let mut v: Vec<char> = Vec::new();
                let mut k: usize = 0;
                while k < n
                    invariant
                        n == t@.len(),
                        k <= n,
                        v@ == t@.subrange(0, k as int),
                    decreases n - k,
                {
                    v.push(t.get_char(k));
                    proof {
                        assert(t@.subrange(0, k + 1) == t@.subrange(0, k as int).push(t@[k as int]));
                    }
                    k += 1;
                }
                proof {
                    assert(t@.subrange(0, n as int) == t@);
                }
                Some(v)
            },
            None => None,
        }
    }

    /// The next `n` tokens read as `i32`s.
    pub fn vec(&mut self, n: usize) -> (r: Option<Vec<i32>>)
        requires
            old(self).wf(),
        ensures
            final(self).wf(),
            final(self).input() == old(self).input(),
            ({
                let (v, p) = read_many_i(old(self).input(), old(self).position(), n as nat);
                &&& final(self).position() == p
                &&& match v {
                    Some(s) => r matches Some(x) && x@ == s,
                    None => r is None,
                }
            }),
    {
        let ghost buf = self.buf@;
        let ghost p0 = self.pos as int;
        let mut out: Vec<i32> = Vec::new();
        let mut ok = true;
        let mut k: usize = 0;
        while k < n
            invariant
                self.wf(),
                self.buf@ == buf,
                k <= n,
                ({
                    let (v, p) = read_many_i(buf, p0, k as nat);
                    &&& self.pos == p
                    &&& ok == v is Some
                    &&& ok ==> out@ == v->Some_0
                }),
            decreases n - k,
        {
            let x = self.i();
            match x {
                Some(x) => {
                    if ok {
                        out.push(x);
                    }
                },
                None => {
                    ok = false;
                },
            }
            k += 1;
        }
        if ok {
            Some(out)
        } else {
            None
        }
    }

    /// The next `n` tokens read as `i32`s, in a queue.
    pub fn vec_deque(&mut self, n: usize) -> (r: Option<VecDeque<i32>>)
        requires
            old(self).wf(),
        ensures
            final(self).wf(),
            final(self).input() == old(self).input(),
            ({
                let (v, p) = read_many_i(old(self).input(), old(self).position(), n as nat);
                &&& final(self).position() == p
                &&& match v {
                    Some(s) => r matches Some(x) && x@ == s,
                    None => r is None,
                }
            }),
    {
        match self.vec(n) {
            Some(v) => {
                let mut q: VecDeque<i32> = VecDeque::new();
                let mut k: usize = 0;
                while k < v.len()
                    invariant
                        k <= v@.len(),
                        q@ == v@.subrange(0, k as int),
                    decreases v.len() - k,
                {
                    q.push_back(v[k]);
                    proof {
                        assert(v@.subrange(0, k + 1) == v@.subrange(0, k as int).push(v@[k as int]));
                    }
                    k += 1;
                }
                proof {
                    assert(v@.subrange(0, v@.len() as int) == v@);
                }
                Some(q)
            },
            None => None,
        }
    }

    /// The next `n` tokens read as `i32`s, as a set.
    pub fn hash_set(&mut self, n: usize) -> (r: Option<HashSet<i32>>)
        requires
            old(self).wf(),
        ensures
            final(self).wf(),
            final(self).input() == old(self).input(),
            ({
                let (v, p) = read_many_i(old(self).input(), old(self).position(), n as nat);
                &&& final(self).position() == p
                &&& match v {
                    Some(s) => r matches Some(x) && x@ == s.to_set(),
                    None => r is None,
                }
            }),
    {
        broadcast use vstd::std_specs::hash::group_hash_axioms;

        match self.vec(n) {
            Some(v) => {
                let mut set: HashSet<i32> = HashSet::new();
                let mut k: usize = 0;
                while k < v.len()
                    invariant
                        k <= v@.len(),
                        set@ == v@.subrange(0, k as int).to_set(),
                    decreases v.len() - k,
                {
                    let ghost before = set@;
                    set.insert(v[k]);
                    proof {
                        let t = v@.subrange(0, k + 1);
                        assert(t == v@.subrange(0, k as int).push(v@[k as int]));
                        v@.subrange(0, k as int).lemma_push_to_set_commute(v@[k as int]);
                    }
                    k += 1;
                }
                proof {
                    assert(v@.subrange(0, v@.len() as int) == v@);
                }
                Some(set)
            },
            None => None,
        }
    }

    /// A zero, then the next `n` tokens read as `i32`s.
    pub fn vec_padded(&mut self, n: usize) -> (r: Option<Vec<i32>>)
        requires
            old(self).wf(),
        ensures
            final(self).wf(),
            final(self).input() == old(self).input(),
            ({
                let (v, p) = read_many_i(old(self).input(), old(self).position(), n as nat);
                &&& final(self).position() == p
                &&& match v {
                    Some(s) => r matches Some(x) && x@ == seq![0i32] + s,
                    None => r is None,
                }
            }),
    {
        match self.vec(n) {
            Some(v) => {
                let mut r: Vec<i32> = Vec::new();
                r.push(0);
                let mut vv = v;
                r.append(&mut vv);
                Some(r)
            },
            None => None,
        }
    }
}

/// The decimal digits of `n`.
pub open spec fn decimal(n: nat) -> Seq<u8>
    decreases n,
{
    if n < 10 {
        seq![(48 + n) as u8]
    } else {
        decimal(n / 10).push((48 + n % 10) as u8)
    }
}

/// `n` written in decimal, with a minus sign when negative.
pub open spec fn signed_decimal(n: int) -> Seq<u8> {
    if n < 0 {
        seq![45u8] + decimal((-n) as nat)
    } else {
        decimal(n as nat)
    }
}

/// The numbers of `v` in decimal, separated by single spaces.
pub open spec fn joined_numbers(v: Seq<i64>) -> Seq<u8>
    decreases v.len(),
{
    if v.len() == 0 {
        Seq::empty()
    } else if v.len() == 1 {
        signed_decimal(v[0] as int)
    } else {
        joined_numbers(v.drop_last()) + seq![32u8] + signed_decimal(v.last() as int)
    }
}

fn push_decimal(out: &mut Vec<u8>, n: u64)
    ensures
        final(out)@ == old(out)@ + decimal(n as nat),
    decreases n,
{
    if n >= 10 {
        push_decimal(out, n / 10);
    }
    out.push((48 + n % 10) as u8);
    proof {
        if n >= 10 {
            assert(final(out)@ =~= old(out)@ + decimal(n as nat));
        } else {
            assert(final(out)@ =~= old(out)@ + decimal(n as nat));
        }
    }
}

fn push_signed(out: &mut Vec<u8>, n: i64)
    ensures
        final(out)@ == old(out)@ + signed_decimal(n as int),
{
    if n < 0 {
        out.push(45u8);
        let m = (-(n as i128)) as u64;
        push_decimal(out, m);
        proof {
            assert(final(out)@ =~= old(out)@ + signed_decimal(n as int));
        }
    } else {
        push_decimal(out, n as u64);
    }
}

/// Writes the numbers of `v` in decimal, separated by single spaces.
pub fn wv(out: &mut Vec<u8>, v: &[i64])
    ensures
        final(out)@ == old(out)@ + joined_numbers(v@),
{
    let ghost start = out@;
    let mut i: usize = 0;
    proof {
        assert(v@.subrange(0, 0) =~= Seq::<i64>::empty());
        assert(start + Seq::<u8>::empty() =~= start);
    }
    while i < v.len()
        invariant
            i <= v@.len(),
            out@ == start + joined_numbers(v@.subrange(0, i as int)),
        decreases v.len() - i,
    {
        let ghost mid = out@;
        if i > 0 {
            out.push(32u8);
        }
        push_signed(out, v[i]);
        proof {
            let t = v@.subrange(0, i + 1);
            assert(t.drop_last() =~= v@.subrange(0, i as int));
            assert(t.last() == v@[i as int]);
            if i == 0 {
                assert(out@ =~= start + joined_numbers(t));
            } else {
                assert(out@ =~= start + joined_numbers(t));
            }
        }
        i += 1;
    }
    proof {
        assert(v@.subrange(0, v@.len() as int) =~= v@);
    }
}

/// Writes the numbers of `v` in decimal, separated by single spaces, and ends the line.
pub fn wvln(out: &mut Vec<u8>, v: &[i64])
    ensures
        final(out)@ == old(out)@ + joined_numbers(v@) + seq![10u8],
{
    wv(out, v);
    out.push(10u8);
}

} // verus!
