//! Text as a sequence of characters: where a character first stands, fields
//! between separators, lines, text without blanks at its ends, and numbers
//! in decimal.

use vstd::prelude::*;

verus! {

/// `i` is the first place of `s` that holds `c`, or the length of `s` where none does.
pub open spec fn first_at(s: Seq<char>, c: char, i: int) -> bool {
    &&& 0 <= i <= s.len()
    &&& i < s.len() ==> s[i] == c
    &&& forall|k: int| 0 <= k < i ==> s[k] != c
}

/// The first place of `s` that holds `c`, or the length of `s` where none does.
pub open spec fn index_of(s: Seq<char>, c: char) -> int {
    choose|i: int| first_at(s, c, i)
}

/// Every text has a first place for `c`.
pub proof fn lemma_first_exists(s: Seq<char>, c: char) -> (i: int)
    ensures
        first_at(s, c, i),
    decreases s.len(),
{
    if s.len() == 0 {
        0
    } else {
        let head = s.drop_last();
        let j = lemma_first_exists(head, c);
        assert forall|k: int| 0 <= k < j implies s[k] != c by {
            assert(head[k] != c);
        }
        if j < s.len() - 1 {
            assert(head[j] == c);
            j
        } else if s.last() == c {
            s.len() - 1
        } else {
            s.len() as int
        }
    }
}

/// There is one first place only.
pub proof fn lemma_index_of(s: Seq<char>, c: char, i: int)
    requires
        first_at(s, c, i),
    ensures
        index_of(s, c) == i,
{
    let j = index_of(s, c);
    assert(first_at(s, c, j));
    if j < i {
        assert(s[j] != c);
    } else if i < j {
        assert(s[i] != c);
    }
}

/// The field number `n` of `s`, counting from zero, where `c` parts the
/// fields; `None` where there are no more than `n` fields.
pub open spec fn field(s: Seq<char>, c: char, n: nat) -> Option<Seq<char>>
    decreases n,
{
    let i = index_of(s, c);
    if n == 0 {
        Some(s.take(i))
    } else if 0 <= i < s.len() {
        field(s.skip(i + 1), c, (n - 1) as nat)
    } else {
        None
    }
}

/// What stands before the first `c` and what stands behind it; `None` where `s` holds no `c`.
pub open spec fn split_once(s: Seq<char>, c: char) -> Option<(Seq<char>, Seq<char>)> {
    let i = index_of(s, c);
    if 0 <= i < s.len() {
        Some((s.take(i), s.skip(i + 1)))
    } else {
        None
    }
}

/// A line without the carriage return at its end, if it has one.
pub open spec fn chomp(line: Seq<char>) -> Seq<char> {
    if line.len() > 0 && line.last() == '\r' {
        line.drop_last()
    } else {
        line
    }
}

/// The lines of `s`. A line ends with a line feed, or with a carriage return
/// and a line feed, neither of which belongs to it; the last line may end
/// with the text.
pub open spec fn lines(s: Seq<char>) -> Seq<Seq<char>>
    decreases s.len(),
{
    if s.len() == 0 {
        Seq::empty()
    } else {
        let i = index_of(s, '\n');
        if 0 <= i < s.len() {
            seq![chomp(s.take(i))] + lines(s.skip(i + 1))
        } else {
            seq![s]
        }
    }
}

/// A blank: space, tab, line feed, form feed or carriage return.
pub open spec fn is_blank(c: char) -> bool {
    c == ' ' || c == '\t' || c == '\n' || c == '\x0C' || c == '\r'
}

/// `s` without the blanks at its start.
pub open spec fn trim_start(s: Seq<char>) -> Seq<char>
    decreases s.len(),
{
    if s.len() > 0 && is_blank(s[0]) {
        trim_start(s.drop_first())
    } else {
        s
    }
}

/// `s` without the blanks at its end.
pub open spec fn trim_end(s: Seq<char>) -> Seq<char>
    decreases s.len(),
{
    if s.len() > 0 && is_blank(s.last()) {
        trim_end(s.drop_last())
    } else {
        s
    }
}

/// `s` without the blanks at its start and at its end.
pub open spec fn trim(s: Seq<char>) -> Seq<char> {
    trim_end(trim_start(s))
}

/// A decimal digit.
pub open spec fn is_digit(c: char) -> bool {
    48 <= c as u32 <= 57
}

/// The number that the digits `d` write in decimal; `None` where one of them is no digit.
pub open spec fn digits_value(d: Seq<char>) -> Option<nat>
    decreases d.len(),
{
    if d.len() == 0 {
        Some(0)
    } else {
        match digits_value(d.drop_last()) {
            Some(v) => if is_digit(d.last()) {
                Some((v * 10 + (d.last() as u32 - 48)) as nat)
            } else {
                None
            },
            None => None,
        }
    }
}

/// The number that `s` writes: decimal digits, at least one, with or without
/// a plus sign before them, that write a number of no more than 64 bits.
pub open spec fn number(s: Seq<char>) -> Option<u64> {
    let d = if s.len() > 0 && s[0] == '+' {
        s.skip(1)
    } else {
        s
    };
    if d.len() == 0 {
        None
    } else {
        match digits_value(d) {
            Some(v) => if v <= u64::MAX {
                Some(v as u64)
            } else {
                None
            },
            None => None,
        }
    }
}

/// The texts that the vectors hold.
pub open spec fn texts(v: Seq<Vec<char>>) -> Seq<Seq<char>> {
    Seq::new(v.len(), |i: int| v[i]@)
}

/// The first place from `lo` on and before `hi` at which `s` holds `c`, or `hi`.
pub fn find(s: &Vec<char>, lo: usize, hi: usize, c: char) -> (r: usize)
    requires
        lo <= hi <= s.len(),
    ensures
        lo <= r <= hi,
        r - lo == index_of(s@.subrange(lo as int, hi as int), c),
{
    let mut i = lo;
    while i < hi && s[i] != c
        invariant
            lo <= i <= hi,
            hi <= s.len(),
            forall|k: int| lo <= k < i ==> s[k] != c,
        decreases hi - i,
    {
        i += 1;
    }
    proof {
        lemma_index_of(s@.subrange(lo as int, hi as int), c, i - lo);
    }
    i
}

/// A copy of `s` from `lo` up to `hi`.
pub fn subvec(s: &Vec<char>, lo: usize, hi: usize) -> (r: Vec<char>)
    requires
        lo <= hi <= s.len(),
    ensures
        r@ == s@.subrange(lo as int, hi as int),
{
    let mut r: Vec<char> = Vec::with_capacity(hi - lo);
    let mut i = lo;
    while i < hi
        invariant
            lo <= i <= hi,
            hi <= s.len(),
            r@ == s@.subrange(lo as int, i as int),
        decreases hi - i,
    {
        r.push(s[i]);
        i += 1;
        assert(r@ =~= s@.subrange(lo as int, i as int));
    }
    r
}

/// Whether `c` is a blank.
pub fn blank(c: char) -> (r: bool)
    ensures
        r == is_blank(c),
{
    c == ' ' || c == '\t' || c == '\n' || c == '\x0C' || c == '\r'
}

/// With blanks up to `a` and none at `a`, the text from `a` on is what is left.
proof fn lemma_trim_start(s: Seq<char>, a: int)
    requires
        0 <= a <= s.len(),
        forall|k: int| 0 <= k < a ==> is_blank(s[k]),
        a < s.len() ==> !is_blank(s[a]),
    ensures
        trim_start(s) == s.skip(a),
    decreases a,
{
    if a == 0 {
        assert(s.skip(0) =~= s);
    } else {
        lemma_trim_start(s.drop_first(), a - 1);
        assert(s.drop_first().skip(a - 1) =~= s.skip(a));
    }
}

/// With blanks from `b` on and none before `b`, the text up to `b` is what is left.
proof fn lemma_trim_end(s: Seq<char>, b: int)
    requires
        0 <= b <= s.len(),
        forall|k: int| b <= k < s.len() ==> is_blank(s[k]),
        b > 0 ==> !is_blank(s[b - 1]),
    ensures
        trim_end(s) == s.take(b),
    decreases s.len() - b,
{
    if b == s.len() {
        assert(s.take(b) =~= s);
    } else {
        lemma_trim_end(s.drop_last(), b);
        assert(s.drop_last().take(b) =~= s.take(b));
    }
}

/// Where the text from `lo` up to `hi` stands once the blanks at its ends are left out.
pub fn trim_range(s: &Vec<char>, lo: usize, hi: usize) -> (r: (usize, usize))
    requires
        lo <= hi <= s.len(),
    ensures
        lo <= r.0 <= r.1 <= hi,
        s@.subrange(r.0 as int, r.1 as int) == trim(s@.subrange(lo as int, hi as int)),
{
    let mut a = lo;
    while a < hi && blank(s[a])
        invariant
            lo <= a <= hi,
            hi <= s.len(),
            forall|k: int| lo <= k < a ==> is_blank(s[k]),
        decreases hi - a,
    {
        a += 1;
    }
    let mut b = hi;
    while b > a && blank(s[b - 1])
        invariant
            a <= b <= hi,
            hi <= s.len(),
            forall|k: int| b <= k < hi ==> is_blank(s[k]),
        decreases b,
    {
        b -= 1;
    }
    proof {
        let whole = s@.subrange(lo as int, hi as int);
        lemma_trim_start(whole, a - lo);
        let tail = whole.skip(a - lo);
        assert(tail =~= s@.subrange(a as int, hi as int));
        lemma_trim_end(tail, b - a);
        assert(tail.take(b - a) =~= s@.subrange(a as int, b as int));
    }
    (a, b)
}

/// Where field number `n` of the text from `lo` up to `hi` stands, the
/// fields parted by `c`; `None` where there are no more than `n` fields.
pub fn field_range(s: &Vec<char>, lo: usize, hi: usize, c: char, n: usize) -> (r: Option<
    (usize, usize),
>)
    requires
        lo <= hi <= s.len(),
    ensures
        match field(s@.subrange(lo as int, hi as int), c, n as nat) {
            Some(f) => r matches Some(at) && lo <= at.0 <= at.1 <= hi && s@.subrange(
                at.0 as int,
                at.1 as int,
            ) == f,
            None => r is None,
        },
{
    let mut from = lo;
    let mut k: usize = 0;
    loop
        invariant
            lo <= from <= hi,
            hi <= s.len(),
            k <= n,
            field(s@.subrange(lo as int, hi as int), c, n as nat) == field(
                s@.subrange(from as int, hi as int),
                c,
                (n - k) as nat,
            ),
        decreases n - k,
    {
        let j = find(s, from, hi, c);
        proof {
            let rest = s@.subrange(from as int, hi as int);
            assert(rest.take(j - from) =~= s@.subrange(from as int, j as int));
            if j < hi {
                assert(rest.skip(j - from + 1) =~= s@.subrange(j + 1, hi as int));
            }
        }
        if k == n {
            return Some((from, j));
        }
        if j == hi {
            return None;
        }
        from = j + 1;
        k += 1;
    }
}

/// The lines of `content`, each a vector of its own.
pub fn split_lines(content: &Vec<char>) -> (r: Vec<Vec<char>>)
    ensures
        texts(r@) == lines(content@),
{
    let mut out: Vec<Vec<char>> = Vec::new();
    let n = content.len();
    let mut from: usize = 0;
    assert(content@.skip(0) =~= content@);
    assert(texts(out@) + lines(content@) =~= lines(content@));
    while from < n
        invariant
            from <= n,
            n == content.len(),
            lines(content@) == texts(out@) + lines(content@.skip(from as int)),
        decreases n - from,
    {
        let j = find(content, from, n, '\n');
        let ghost rest = content@.skip(from as int);
        let ghost done = texts(out@);
        proof {
            assert(rest =~= content@.subrange(from as int, n as int));
        }
        if j < n {
            let e = if j > from && content[j - 1] == '\r' {
                j - 1
            } else {
                j
            };
            let line = subvec(content, from, e);
            proof {
                assert(rest.take(j - from) =~= content@.subrange(from as int, j as int));
                assert(line@ =~= chomp(rest.take(j - from)));
                assert(rest.skip(j - from + 1) =~= content@.skip(j + 1));
            }
            out.push(line);
            proof {
                assert(texts(out@) =~= done + seq![line@]);
                assert(done + (seq![line@] + lines(content@.skip(j + 1))) =~= (done + seq![
                    line@,
                ]) + lines(content@.skip(j + 1)));
            }
            from = j + 1;
        } else {
            let line = subvec(content, from, n);
            out.push(line);
            proof {
                assert(line@ =~= rest);
                assert(texts(out@) =~= done + seq![line@]);
                assert(lines(content@.skip(n as int)) =~= Seq::<Seq<char>>::empty());
                assert(done + seq![rest] =~= (done + seq![line@]) + Seq::<Seq<char>>::empty());
            }
            from = n;
        }
    }
    proof {
        assert(lines(content@.skip(n as int)) =~= Seq::<Seq<char>>::empty());
        assert(texts(out@) + Seq::<Seq<char>>::empty() =~= texts(out@));
    }
    out
}

/// Reading further digits never makes the number smaller, nor mends a text that is no number.
proof fn lemma_digits_grow(d: Seq<char>, k: int)
    requires
        0 <= k <= d.len(),
    ensures
        digits_value(d.take(k)) is None ==> digits_value(d) is None,
        digits_value(d) matches Some(v) ==> digits_value(d.take(k)).unwrap() <= v,
    decreases d.len() - k,
{
    if k == d.len() {
        assert(d.take(k) =~= d);
    } else {
        lemma_digits_grow(d.drop_last(), k);
        assert(d.drop_last().take(k) =~= d.take(k));
    }
}

/// The number that the text from `lo` up to `hi` writes.
pub fn parse_number(s: &Vec<char>, lo: usize, hi: usize) -> (r: Option<u64>)
    requires
        lo <= hi <= s.len(),
    ensures
        r == number(s@.subrange(lo as int, hi as int)),
{
    let ghost whole = s@.subrange(lo as int, hi as int);
    let from = if lo < hi && s[lo] == '+' {
        lo + 1
    } else {
        lo
    };
    let ghost d = s@.subrange(from as int, hi as int);
    proof {
        if from > lo {
            assert(whole.skip(1) =~= d);
        } else {
            assert(whole =~= d);
        }
    }
    if from == hi {
        return None;
    }
    let mut v: u64 = 0;
    let mut i = from;
    assert(d.take(0) =~= Seq::<char>::empty());
    while i < hi
        invariant
            from <= i <= hi,
            from < hi,
            hi <= s.len(),
            whole == s@.subrange(lo as int, hi as int),
            d == s@.subrange(from as int, hi as int),
            d == if whole.len() > 0 && whole[0] == '+' {
                whole.skip(1)
            } else {
                whole
            },
            digits_value(d.take(i - from)) == Some(v as nat),
        decreases hi - i,
    {
        let c = s[i];
        let code = c as u32;
        proof {
            assert(d.take(i - from + 1).drop_last() =~= d.take(i - from));
            assert(d.take(i - from + 1).last() == c);
            lemma_digits_grow(d, i - from + 1);
        }
        if code < 48 || code > 57 {
            return None;
        }
        let digit = (code - 48) as u64;
        let next = match v.checked_mul(10) {
            Some(t) => t.checked_add(digit),
            None => None,
        };
        match next {
            Some(t) => {
                v = t;
            },
            None => {
                return None;
            },
        }
        i += 1;
    }
    assert(d.take(hi - from) =~= d);
    Some(v)
}

} // verus!
