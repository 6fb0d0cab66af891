//! The text files that the table of short codes is made from: the
//! dictionary of characters and their codes, the counts of roots, the codes
//! allowed besides, and the codes laid down beforehand.

use vstd::prelude::*;
use crate::text::{
    field, field_range, index_of, lines, number, parse_number, split_lines, split_once, subvec,
    texts, trim, trim_range, find,
};

verus! {

/// The lowercase of a text, as `CompactString::from_str_to_lowercase` of the
/// crate `compact_str` gives it.
pub uninterp spec fn lowercase(s: Seq<char>) -> Seq<char>;

/// Calls `compact_str::CompactString::from_str_to_lowercase` on the text and
/// hands back its characters. The contract gives the result its name and
/// claims no more: the same text has the same lowercase.
#[verifier::external_body]
fn to_lowercase(s: &Vec<char>) -> (r: Vec<char>)
    ensures
        r@ == lowercase(s@),
{
    let text: String = s.iter().collect();
    compact_str::CompactString::from_str_to_lowercase(&text).chars().collect()
}

/// What a line says: the line up to its first `#`, without the blanks at both ends.
pub open spec fn content_of(line: Seq<char>) -> Seq<char> {
    trim(line.take(index_of(line, '#')))
}

/// Where in `line` what it says stands.
pub fn content_range(line: &Vec<char>) -> (r: (usize, usize))
    ensures
        r.0 <= r.1 <= line.len(),
        line@.subrange(r.0 as int, r.1 as int) == content_of(line@),
{
    let n = line.len();
    let cut = find(line, 0, n, '#');
    proof {
        assert(line@.subrange(0, n as int) =~= line@);
        assert(line@.take(cut as int) =~= line@.subrange(0, cut as int));
    }
    trim_range(line, 0, cut)
}

/// What a line of the dictionary says. A line holds a character, a tab, and
/// in square brackets fields parted by commas, of which the second is the
/// code and the fifth the kind of character. Only characters of the kind
/// `CJK` count. `None` where the line is not of that form; `Some(None)` where
/// it is empty or its character does not count; else the character and its
/// code as written.
pub open spec fn mabiao_line(line: Seq<char>) -> Option<Option<(char, Seq<char>)>> {
    if line.len() == 0 {
        Some(None)
    } else {
        match field(line, '\t', 1) {
            None => None,
            Some(info) => if info.len() < 2 || info[0] != '[' || info.last() != ']' {
                None
            } else {
                let inner = info.subrange(1, info.len() - 1);
                match (field(inner, ',', 1), field(inner, ',', 4)) {
                    (Some(bianma), Some(kind)) => if kind == seq!['C', 'J', 'K'] {
                        let zi = line.take(index_of(line, '\t'));
                        if zi.len() == 0 {
                            None
                        } else {
                            Some(Some((zi[0], bianma)))
                        }
                    } else {
                        Some(None)
                    },
                    _ => None,
                }
            },
        }
    }
}

/// Reads one line of the dictionary.
pub fn parse_mabiao_line(line: &Vec<char>) -> (r: Option<Option<(char, Vec<char>)>>)
    ensures
        match mabiao_line(line@) {
            None => r is None,
            Some(None) => r == Some(None::<(char, Vec<char>)>),
            Some(Some(e)) => r matches Some(Some(got)) && got.0 == e.0 && got.1@ == e.1,
        },
{
    let n = line.len();
    if n == 0 {
        return Some(None);
    }
    proof {
        assert(line@.subrange(0, n as int) =~= line@);
    }
    let (a, b) = match field_range(line, 0, n, '\t', 1) {
        None => {
            return None;
        },
        Some(at) => at,
    };
    if b - a < 2 || line[a] != '[' || line[b - 1] != ']' {
        return None;
    }
    let ghost info = line@.subrange(a as int, b as int);
    proof {
        assert(info.subrange(1, info.len() - 1) =~= line@.subrange(a + 1, b - 1));
    }
    let code = match field_range(line, a + 1, b - 1, ',', 1) {
        None => {
            return None;
        },
        Some(at) => at,
    };
    let kind = match field_range(line, a + 1, b - 1, ',', 4) {
        None => {
            return None;
        },
        Some(at) => at,
    };
    let ghost kind_text = line@.subrange(kind.0 as int, kind.1 as int);
    if kind.1 - kind.0 == 3 && line[kind.0] == 'C' && line[kind.0 + 1] == 'J' && line[kind.0 + 2]
        == 'K' {
        proof {
            assert(kind_text =~= seq!['C', 'J', 'K']);
        }
        let end = find(line, 0, n, '\t');
        if end == 0 {
            return None;
        }
        Some(Some((line[0], subvec(line, code.0, code.1))))
    } else {
        proof {
            if kind_text == seq!['C', 'J', 'K'] {
                assert(kind_text.len() == 3);
                assert(kind_text[0] == 'C' && kind_text[1] == 'J' && kind_text[2] == 'K');
            }
        }
        Some(None)
    }
}

/// The characters that count and their codes in lowercase, from the first
/// `n` lines of the dictionary, in the order of the lines; `None` where one
/// of those lines is not of the dictionary's form.
pub open spec fn mabiao_of(ls: Seq<Seq<char>>, n: nat) -> Option<Seq<(char, Seq<char>)>>
    decreases n,
{
    if n == 0 {
        Some(Seq::empty())
    } else {
        match (mabiao_of(ls, (n - 1) as nat), mabiao_line(ls[n - 1])) {
            (Some(before), Some(Some(e))) => Some(before.push((e.0, lowercase(e.1)))),
            (Some(before), Some(None)) => Some(before),
            _ => None,
        }
    }
}

/// Pairs of a character and a text, the texts read as sequences.
pub open spec fn pairs(v: Seq<(char, Vec<char>)>) -> Seq<(char, Seq<char>)> {
    Seq::new(v.len(), |i: int| (v[i].0, v[i].1@))
}

/// Once a line has been refused, the dictionary stays refused.
proof fn lemma_mabiao_fails(ls: Seq<Seq<char>>, k: nat, n: nat)
    requires
        k <= n,
        mabiao_of(ls, k) is None,
    ensures
        mabiao_of(ls, n) is None,
    decreases n - k,
{
    if k < n {
        lemma_mabiao_fails(ls, k, (n - 1) as nat);
    }
}

/// Reads the dictionary: the characters of the kind `CJK` with their codes
/// in lowercase, in the order of the lines. `None` where a line is not of
/// the dictionary's form.
pub fn parse_mabiao(content: &Vec<char>) -> (r: Option<Vec<(char, Vec<char>)>>)
    ensures
        match mabiao_of(lines(content@), lines(content@).len()) {
            Some(found) => r matches Some(got) && pairs(got@) == found,
            None => r is None,
        },
{
    let ls = split_lines(content);
    let ghost all = lines(content@);
    let mut out: Vec<(char, Vec<char>)> = Vec::new();
    let mut k: usize = 0;
    assert(pairs(out@) =~= Seq::<(char, Seq<char>)>::empty());
    while k < ls.len()
        invariant
            k <= ls.len(),
            texts(ls@) == all,
            all == lines(content@),
            mabiao_of(all, k as nat) == Some(pairs(out@)),
        decreases ls.len() - k,
    {
        assert(all[k as int] == ls[k as int]@);
        let ghost before = pairs(out@);
        match parse_mabiao_line(&ls[k]) {
            None => {
                proof {
                    assert(mabiao_of(all, (k + 1) as nat) is None);
                    lemma_mabiao_fails(all, (k + 1) as nat, all.len());
                }
                return None;
            },
            Some(None) => {},
            Some(Some((zi, written))) => {
                let bianma = to_lowercase(&written);
                out.push((zi, bianma));
                assert(pairs(out@) =~= before.push((zi, lowercase(written@))));
            },
        }
        k += 1;
    }
    Some(out)
}

/// What a line of the counts says: a character, a tab and the number of its
/// roots. `None` where the line is not of that form; `Some(None)` where it
/// says nothing.
pub open spec fn count_line(line: Seq<char>) -> Option<Option<(char, u64)>> {
    let text = content_of(line);
    if text.len() == 0 {
        Some(None)
    } else if index_of(text, '\t') == 0 {
        None
    } else {
        match field(text, '\t', 1) {
            None => None,
            Some(written) => match number(written) {
                None => None,
                Some(count) => Some(Some((text[0], count))),
            },
        }
    }
}

/// Reads one line of the counts.
pub fn parse_count_line(line: &Vec<char>) -> (r: Option<Option<(char, u64)>>)
    ensures
        r == count_line(line@),
{
    let (a, b) = content_range(line);
    if a == b {
        return Some(None);
    }
    let ghost text = line@.subrange(a as int, b as int);
    let end = find(line, a, b, '\t');
    if end == a {
        return None;
    }
    match field_range(line, a, b, '\t', 1) {
        None => None,
        Some(at) => match parse_number(line, at.0, at.1) {
            None => None,
            Some(count) => {
                assert(text[0] == line[a as int]);
                Some(Some((line[a], count)))
            },
        },
    }
}

/// The counts that the first `n` lines give, in the order of the lines;
/// `None` where one of those lines is not of the counts' form.
pub open spec fn counts_of(ls: Seq<Seq<char>>, n: nat) -> Option<Seq<(char, u64)>>
    decreases n,
{
    if n == 0 {
        Some(Seq::empty())
    } else {
        match (counts_of(ls, (n - 1) as nat), count_line(ls[n - 1])) {
            (Some(before), Some(Some(e))) => Some(before.push(e)),
            (Some(before), Some(None)) => Some(before),
            _ => None,
        }
    }
}

/// Once a line has been refused, the counts stay refused.
proof fn lemma_counts_fail(ls: Seq<Seq<char>>, k: nat, n: nat)
    requires
        k <= n,
        counts_of(ls, k) is None,
    ensures
        counts_of(ls, n) is None,
    decreases n - k,
{
    if k < n {
        lemma_counts_fail(ls, k, (n - 1) as nat);
    }
}

/// Reads the counts of roots: each character named with its count, in the
/// order of the lines. `None` where a line is not of the counts' form.
pub fn parse_counts(content: &Vec<char>) -> (r: Option<Vec<(char, u64)>>)
    ensures
        match counts_of(lines(content@), lines(content@).len()) {
            Some(found) => r matches Some(got) && got@ == found,
            None => r is None,
        },
{
    let ls = split_lines(content);
    let ghost all = lines(content@);
    let mut out: Vec<(char, u64)> = Vec::new();
    let mut k: usize = 0;
    assert(out@ =~= Seq::<(char, u64)>::empty());
    while k < ls.len()
        invariant
            k <= ls.len(),
            texts(ls@) == all,
            all == lines(content@),
            counts_of(all, k as nat) == Some(out@),
        decreases ls.len() - k,
    {
        assert(all[k as int] == ls[k as int]@);
        match parse_count_line(&ls[k]) {
            None => {
                proof {
                    assert(counts_of(all, (k + 1) as nat) is None);
                    lemma_counts_fail(all, (k + 1) as nat, all.len());
                }
                return None;
            },
            Some(None) => {},
            Some(Some(e)) => {
                out.push(e);
            },
        }
        k += 1;
    }
    Some(out)
}

/// The codes that the first `n` lines allow, in lowercase and in the order
/// of the lines. A line that says nothing allows none.
pub open spec fn allowed_of(ls: Seq<Seq<char>>, n: nat) -> Seq<Seq<char>>
    decreases n,
{
    if n == 0 {
        Seq::empty()
    } else {
        let before = allowed_of(ls, (n - 1) as nat);
        let text = content_of(ls[n - 1]);
        if text.len() == 0 {
            before
        } else {
            before.push(lowercase(text))
        }
    }
}

/// Reads the codes allowed besides: one code to a line, in lowercase.
pub fn parse_allowed(content: &Vec<char>) -> (r: Vec<Vec<char>>)
    ensures
        texts(r@) == allowed_of(lines(content@), lines(content@).len()),
{
    let ls = split_lines(content);
    let ghost all = lines(content@);
    let mut out: Vec<Vec<char>> = Vec::new();
    let mut k: usize = 0;
    assert(texts(out@) =~= Seq::<Seq<char>>::empty());
    while k < ls.len()
        invariant
            k <= ls.len(),
            texts(ls@) == all,
            all == lines(content@),
            allowed_of(all, k as nat) == texts(out@),
        decreases ls.len() - k,
    {
        assert(all[k as int] == ls[k as int]@);
        let ghost before = texts(out@);
        let (a, b) = content_range(&ls[k]);
        if a < b {
            let written = subvec(&ls[k], a, b);
            let code = to_lowercase(&written);
            out.push(code);
            assert(texts(out@) =~= before.push(lowercase(written@)));
        }
        k += 1;
    }
    out
}

/// A code laid down beforehand: what it stands for, as written, and the code.
pub struct Predefined {
    pub zi: Vec<char>,
    pub bianma: Vec<char>,
}

/// The codes laid down, as pairs of sequences.
pub open spec fn predefined_texts(v: Seq<Predefined>) -> Seq<(Seq<char>, Seq<char>)> {
    Seq::new(v.len(), |i: int| (v[i].zi@, v[i].bianma@))
}

/// The codes that the first `n` lines lay down, in the order of the lines:
/// each line holds what the code stands for, a tab, and the code, which is
/// taken in lowercase. A line that says nothing lays down none. Where a line
/// says something without a tab, the number of the first such line, counted
/// from one.
pub open spec fn predefined_of(ls: Seq<Seq<char>>, n: nat) -> Result<
    Seq<(Seq<char>, Seq<char>)>,
    nat,
>
    decreases n,
{
    if n == 0 {
        Ok(Seq::empty())
    } else {
        match predefined_of(ls, (n - 1) as nat) {
            Err(at) => Err(at),
            Ok(before) => {
                let text = content_of(ls[n - 1]);
                if text.len() == 0 {
                    Ok(before)
                } else {
                    match split_once(text, '\t') {
                        Some((zi, bianma)) => Ok(before.push((zi, lowercase(bianma)))),
                        None => Err(n),
                    }
                }
            },
        }
    }
}

/// The first line without a tab is the one that is reported.
proof fn lemma_predefined_fails(ls: Seq<Seq<char>>, k: nat, n: nat)
    requires
        k <= n,
        predefined_of(ls, k) is Err,
    ensures
        predefined_of(ls, n) == predefined_of(ls, k),
    decreases n - k,
{
    if k < n {
        lemma_predefined_fails(ls, k, (n - 1) as nat);
    }
}

/// Reads the codes laid down beforehand. Fails with the number of the first
/// line, counted from one, that says something but holds no tab.
pub fn parse_predefined(content: &Vec<char>) -> (r: Result<Vec<Predefined>, usize>)
    ensures
        match predefined_of(lines(content@), lines(content@).len()) {
            Ok(found) => r matches Ok(got) && predefined_texts(got@) == found,
            Err(at) => r matches Err(line) && line == at,
        },
{
    let ls = split_lines(content);
    let ghost all = lines(content@);
    let mut out: Vec<Predefined> = Vec::new();
    let mut k: usize = 0;
    assert(predefined_texts(out@) =~= Seq::<(Seq<char>, Seq<char>)>::empty());
    while k < ls.len()
        invariant
            k <= ls.len(),
            texts(ls@) == all,
            all == lines(content@),
            predefined_of(all, k as nat) == Ok::<Seq<(Seq<char>, Seq<char>)>, nat>(
                predefined_texts(out@),
            ),
        decreases ls.len() - k,
    {
        assert(all[k as int] == ls[k as int]@);
        let ghost before = predefined_texts(out@);
        let line = &ls[k];
        let (a, b) = content_range(line);
        if a < b {
            let tab = find(line, a, b, '\t');
            let ghost text = line@.subrange(a as int, b as int);
            if tab == b {
                proof {
                    assert(split_once(text, '\t') is None);
                    assert(predefined_of(all, (k + 1) as nat) == Err::<
                        Seq<(Seq<char>, Seq<char>)>,
                        nat,
                    >((k + 1) as nat));
                    lemma_predefined_fails(all, (k + 1) as nat, all.len());
                }
                return Err(k + 1);
            }
            let zi = subvec(line, a, tab);
            let written = subvec(line, tab + 1, b);
            proof {
                assert(text.take(tab - a) =~= zi@);
                assert(text.skip(tab - a + 1) =~= written@);
            }
            let bianma = to_lowercase(&written);
            out.push(Predefined { zi, bianma });
            assert(predefined_texts(out@) =~= before.push((zi@, lowercase(written@))));
        }
        k += 1;
    }
    Ok(out)
}

} // verus!
