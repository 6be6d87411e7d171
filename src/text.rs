use vstd::prelude::*;

verus! {

/// Relies on `String::push`: appends one character at the end.
pub assume_specification[ String::push ](s: &mut String, ch: char)
    ensures
        final(s)@ == old(s)@.push(ch),
;

/// The characters of `s`, in order.
pub fn chars_of(s: &str) -> (r: Vec<char>)
    ensures
        r@ == s@,
{
    let mut r: Vec<char> = Vec::new();
    for c in it: s.chars()
        invariant
            r@ == it.seq().subrange(0, it.index() as int),
            it.seq() == s@,
    {
        r.push(c);
    }
    r
}

/// The characters `s[lo..hi]` as a new string.
pub fn string_of(s: &Vec<char>, lo: usize, hi: usize) -> (r: String)
    requires
        lo <= hi <= s@.len(),
    ensures
        r@ == s@.subrange(lo as int, hi as int),
{
    let mut r = String::new();
    let mut k: usize = lo;
    while k < hi
        invariant
            lo <= k <= hi <= s@.len(),
            r@ == s@.subrange(lo as int, k as int),
        decreases hi - k,
    {
        r.push(s[k]);
        proof {
            assert(s@.subrange(lo as int, k + 1) == s@.subrange(lo as int, k as int).push(s@[k as int]));
        }
        k = k + 1;
    }
    r
}

/// Appends `s[lo..hi]` to `out`.
pub fn push_range(out: &mut String, s: &Vec<char>, lo: usize, hi: usize)
    requires
        lo <= hi <= s@.len(),
    ensures
        final(out)@ == old(out)@ + s@.subrange(lo as int, hi as int),
{
    let mut k: usize = lo;
    while k < hi
        invariant
            lo <= k <= hi <= s@.len(),
            out@ == old(out)@ + s@.subrange(lo as int, k as int),
        decreases hi - k,
    {
        out.push(s[k]);
        proof {
            assert(s@.subrange(lo as int, k + 1) == s@.subrange(lo as int, k as int).push(s@[k as int]));
            assert(old(out)@ + s@.subrange(lo as int, k + 1) == (old(out)@ + s@.subrange(lo as int, k as int)).push(s@[k as int]));
        }
        k = k + 1;
    }
}

/// Appends all of `t` to `out`.
pub fn push_all(out: &mut String, t: &Vec<char>)
    ensures
        final(out)@ == old(out)@ + t@,
{
    push_range(out, t, 0, t.len());
    proof {
        assert(t@.subrange(0, t@.len() as int) == t@);
    }
}

/// Whether `s[lo..hi]` equals `t`.
pub fn range_eq(s: &Vec<char>, lo: usize, hi: usize, t: &Vec<char>) -> (r: bool)
    requires
        lo <= hi <= s@.len(),
    ensures
        r == (s@.subrange(lo as int, hi as int) == t@),
{
    if hi - lo != t.len() {
        return false;
    }
    let mut k: usize = 0;
    while k < t.len()
        invariant
            lo <= hi <= s@.len(),
            hi - lo == t@.len(),
            k <= t@.len(),
            forall|j: int| 0 <= j < k ==> s@[lo + j] == t@[j],
        decreases t@.len() - k,
    {
        if s[lo + k] != t[k] {
            return false;
        }
        k = k + 1;
    }
    proof {
        assert(s@.subrange(lo as int, hi as int) =~= t@);
    }
    true
}

/// The characters `s[lo..hi]` as a new vector.
pub fn sub_chars(s: &Vec<char>, lo: usize, hi: usize) -> (r: Vec<char>)
    requires
        lo <= hi <= s@.len(),
    ensures
        r@ == s@.subrange(lo as int, hi as int),
{
    let mut r: Vec<char> = Vec::new();
    let mut k: usize = lo;
    while k < hi
        invariant
            lo <= k <= hi <= s@.len(),
            r@ == s@.subrange(lo as int, k as int),
        decreases hi - k,
    {
        r.push(s[k]);
        proof {
            assert(s@.subrange(lo as int, k + 1) == s@.subrange(lo as int, k as int).push(s@[k as int]));
        }
        k = k + 1;
    }
    r
}

/// How many times `c` occurs in `t`.
pub open spec fn count_of(t: Seq<char>, c: char) -> int
    decreases t.len(),
{
    if t.len() == 0 {
        0
    } else {
        count_of(t.drop_last(), c) + if t.last() == c {
            1int
        } else {
            0int
        }
    }
}

pub proof fn lemma_count_bounds(t: Seq<char>, c: char)
    ensures
        0 <= count_of(t, c) <= t.len(),
    decreases t.len(),
{
    if t.len() > 0 {
        lemma_count_bounds(t.drop_last(), c);
    }
}

/// How many times `c` occurs in `t`.
pub fn count_char(t: &Vec<char>, c: char) -> (r: usize)
    ensures
        r == count_of(t@, c),
{
    let mut n: usize = 0;
    let mut k: usize = 0;
    while k < t.len()
        invariant
            k <= t@.len(),
            n == count_of(t@.subrange(0, k as int), c),
        decreases t@.len() - k,
    {
        proof {
            assert(t@.subrange(0, k + 1).drop_last() == t@.subrange(0, k as int));
            lemma_count_bounds(t@.subrange(0, k as int), c);
        }
        if t[k] == c {
            n = n + 1;
        }
        k = k + 1;
    }
    proof {
        assert(t@.subrange(0, t@.len() as int) == t@);
    }
    n
}

} // verus!
