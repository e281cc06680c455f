//! The corpus of call sequences seen in real code: one line per sequence,
//! fields separated by `|`; the second field holds how often the sequence
//! was seen, the last one the names of the functions called, separated by
//! spaces.
use vstd::prelude::*;
use crate::sequence::names_view;

verus! {

/// `s` cut at each `sep`: one more piece than there are separators, empty
/// pieces included.
pub open spec fn split_on(s: Seq<char>, sep: char) -> Seq<Seq<char>>
    decreases s.len(),
{
    if s.len() == 0 {
        seq![Seq::<char>::empty()]
    } else {
        let rest = split_on(s.drop_last(), sep);
        if s.last() == sep {
            rest.push(Seq::empty())
        } else {
            rest.update(rest.len() - 1, rest.last().push(s.last()))
        }
    }
}

pub proof fn lemma_split_on_nonempty(s: Seq<char>, sep: char)
    ensures
        split_on(s, sep).len() >= 1,
    decreases s.len(),
{
    if s.len() > 0 {
        lemma_split_on_nonempty(s.drop_last(), sep);
    }
}

pub open spec fn is_ascii_digit(c: char) -> bool {
    '0' <= c <= '9'
}

/// The number the decimal digits `ds` write.
pub open spec fn decimal_value(ds: Seq<char>) -> int
    decreases ds.len(),
{
    if ds.len() == 0 {
        0
    } else {
        decimal_value(ds.drop_last()) * 10 + (ds.last() as int - '0' as int)
    }
}

/// A name of more than one byte in UTF-8: two characters or more, or one
/// outside ASCII.
pub open spec fn long_token(t: Seq<char>) -> bool {
    t.len() >= 2 || (t.len() == 1 && t[0] >= '\u{80}')
}

/// What a corpus line holds: how often its sequence was seen and the names
/// of the functions it calls. `None` when the line has no second field or
/// that field holds no digits or a number past `i32::MAX`.
pub open spec fn spec_parse_line(line: Seq<char>) -> Option<(int, Seq<Seq<char>>)> {
    let fields = split_on(line, '|');
    if fields.len() < 2 {
        None
    } else {
        let digits = fields[1].filter(|c: char| is_ascii_digit(c));
        if digits.len() == 0 || decimal_value(digits) > i32::MAX {
            None
        } else {
            Some((decimal_value(digits), split_on(fields.last(), ' ').filter(|t: Seq<char>| long_token(t))))
        }
    }
}

/// A line of the corpus.
pub struct CorpusLine {
    pub frequency: i32,
    pub functions: Vec<String>,
}

/// The pieces of `cs[from..to]` cut at each `sep`, as ranges of `cs`.
fn split_ranges(cs: &Vec<char>, from: usize, to: usize, sep: char) -> (r: Vec<(usize, usize)>)
    requires
        from <= to <= cs@.len(),
    ensures
        r@.map_values(|p: (usize, usize)| cs@.subrange(p.0 as int, p.1 as int)) == split_on(cs@.subrange(from as int, to as int), sep),
        forall|k: int| 0 <= k < r@.len() ==> from <= (#[trigger] r@[k]).0 <= r@[k].1 <= to,
{
    let mut r: Vec<(usize, usize)> = Vec::new();
    let mut start = from;
    let mut i = from;
    proof {
        assert(cs@.subrange(from as int, from as int) =~= Seq::<char>::empty());
        assert(r@.map_values(|p: (usize, usize)| cs@.subrange(p.0 as int, p.1 as int)) =~= Seq::<Seq<char>>::empty());
        assert(split_on(Seq::<char>::empty(), sep) == seq![Seq::<char>::empty()]);
        assert(Seq::<Seq<char>>::empty().push(Seq::<char>::empty()) =~= seq![Seq::<char>::empty()]);
    }
    while i < to
        invariant
            from <= start <= i <= to <= cs@.len(),
            r@.map_values(|p: (usize, usize)| cs@.subrange(p.0 as int, p.1 as int)).push(cs@.subrange(start as int, i as int))
                == split_on(cs@.subrange(from as int, i as int), sep),
            forall|k: int| 0 <= k < r@.len() ==> from <= (#[trigger] r@[k]).0 <= r@[k].1 <= start,
        decreases to - i,
    {
        let ghost before = r@.map_values(|p: (usize, usize)| cs@.subrange(p.0 as int, p.1 as int));
        proof {
            assert(cs@.subrange(from as int, i + 1).drop_last() =~= cs@.subrange(from as int, i as int));
            assert(cs@.subrange(from as int, i + 1).last() == cs@[i as int]);
        }
        if cs[i] == sep {
            r.push((start, i));
            start = i + 1;
            proof {
                assert(r@.map_values(|p: (usize, usize)| cs@.subrange(p.0 as int, p.1 as int)) =~= before.push(
                    cs@.subrange(r@.last().0 as int, r@.last().1 as int)));
                assert(cs@.subrange(start as int, i + 1) =~= Seq::<char>::empty());
            }
        } else {
            proof {
                let split = split_on(cs@.subrange(from as int, i as int), sep);
                assert(split.last() == cs@.subrange(start as int, i as int));
                assert(cs@.subrange(start as int, i + 1) =~= cs@.subrange(start as int, i as int).push(cs@[i as int]));
                assert(before.push(cs@.subrange(start as int, i + 1)) =~= split.update(split.len() - 1, split.last().push(
                    cs@[i as int])));
            }
        }
        i = i + 1;
    }
    r.push((start, to));
    proof {
        assert(r@.map_values(|p: (usize, usize)| cs@.subrange(p.0 as int, p.1 as int)) =~= r@.drop_last().map_values(
            |p: (usize, usize)| cs@.subrange(p.0 as int, p.1 as int)).push(cs@.subrange(start as int, to as int)));
        assert(r@.drop_last() =~= r@.subrange(0, r@.len() - 1));
    }
    r
}

/// The characters of `s`.
fn chars_of(s: &str) -> (r: Vec<char>)
    ensures
        r@ == s@,
{
    let n = s.unicode_len();
    let mut r: Vec<char> = Vec::new();
    let mut i: usize = 0;
    while i < n
        invariant
            n == s@.len(),
            i <= n,
            r@ == s@.take(i as int),
        decreases n - i,
    {
        r.push(s.get_char(i));
        proof {
            assert(s@.take(i + 1) =~= s@.take(i as int).push(s@[i as int]));
        }
        i = i + 1;
    }
    proof {
        assert(s@.take(n as int) =~= s@);
    }
    r
}

/// The limit past which the frequency of a line is refused.
const FREQUENCY_CAP: u64 = 2147483648;

/// Reads a line of the corpus.
pub fn parse_corpus_line(line: &str) -> (r: Option<CorpusLine>)
    ensures
        match r {
            None => spec_parse_line(line@) is None,
            Some(c) => spec_parse_line(line@) == Some((c.frequency as int, names_view(c.functions@))),
        },
{
    let cs = chars_of(line);
    let n = cs.len();
    proof {
        assert(cs@.subrange(0, n as int) =~= cs@);
    }
    let fields = split_ranges(&cs, 0, n, '|');
    let ghost fviews = fields@.map_values(|p: (usize, usize)| cs@.subrange(p.0 as int, p.1 as int));
    proof {
        assert(fviews == split_on(line@, '|'));
        lemma_split_on_nonempty(line@, '|');
    }
    if fields.len() < 2 {
        return None;
    }
    let (fa, fb) = fields[1];
    proof {
        assert(fviews[1] == cs@.subrange(fa as int, fb as int));
    }
    let ghost field = cs@.subrange(fa as int, fb as int);
    let ghost dpred = |c: char| is_ascii_digit(c);
    let mut value: u64 = 0;
    let mut count: usize = 0;
    let mut i = fa;
    while i < fb
        invariant
            fa <= i <= fb <= cs@.len(),
            field == cs@.subrange(fa as int, fb as int),
            dpred == (|c: char| is_ascii_digit(c)),
            count == field.take(i - fa).filter(dpred).len(),
            value == if decimal_value(field.take(i - fa).filter(dpred)) < FREQUENCY_CAP {
                decimal_value(field.take(i - fa).filter(dpred))
            } else {
                FREQUENCY_CAP as int
            },
            decimal_value(field.take(i - fa).filter(dpred)) >= 0,
            count <= i - fa,
        decreases fb - i,
    {
        let c = cs[i];
        proof {
            assert(field.take(i + 1 - fa) =~= field.take(i - fa).push(c));
            field.take(i - fa).lemma_filter_push(c, dpred);
        }
        if '0' <= c && c <= '9' {
            let d = (c as u32 - '0' as u32) as u64;
            let next = value * 10 + d;
            value = if next < FREQUENCY_CAP { next } else { FREQUENCY_CAP };
            count = count + 1;
            proof {
                let ds = field.take(i + 1 - fa).filter(dpred);
                assert(ds.drop_last() == field.take(i - fa).filter(dpred));
                assert(ds.last() == c);
                assert(d == c as int - '0' as int);
            }
        }
        i = i + 1;
    }
    proof {
        assert(field.take(fb - fa) =~= field);
    }
    if count == 0 || value > 2147483647 {
        return None;
    }
    let frequency = value as i32;
    let (la, lb) = fields[fields.len() - 1];
    proof {
        assert(fviews.last() == cs@.subrange(la as int, lb as int));
    }
    let tokens = split_ranges(&cs, la, lb, ' ');
    let ghost tviews = tokens@.map_values(|p: (usize, usize)| cs@.subrange(p.0 as int, p.1 as int));
    let ghost tpred = |t: Seq<char>| long_token(t);
    let mut functions: Vec<String> = Vec::new();
    let mut k: usize = 0;
    while k < tokens.len()
        invariant
            k <= tokens@.len(),
            cs@ == line@,
            tviews == tokens@.map_values(|p: (usize, usize)| cs@.subrange(p.0 as int, p.1 as int)),
            forall|j: int| 0 <= j < tokens@.len() ==> (#[trigger] tokens@[j]).0 <= tokens@[j].1 <= cs@.len(),
            tpred == (|t: Seq<char>| long_token(t)),
            names_view(functions@) == tviews.take(k as int).filter(tpred),
        decreases tokens.len() - k,
    {
        let (ta, tb) = tokens[k];
        proof {
            assert(tviews[k as int] == cs@.subrange(ta as int, tb as int));
            assert(tviews.take(k + 1) =~= tviews.take(k as int).push(tviews[k as int]));
            tviews.take(k as int).lemma_filter_push(tviews[k as int], tpred);
        }
        let long = tb - ta >= 2 || (tb - ta == 1 && cs[ta] >= '\u{80}');
        proof {
            assert(tviews[k as int].len() == tb - ta);
            if tb - ta == 1 {
                assert(tviews[k as int][0] == cs@[ta as int]);
            }
            assert(long == long_token(tviews[k as int]));
        }
        let ghost prev = functions@;
        if long {
            let piece = line.substring_char(ta, tb);
            let name = String::from_str(piece);
            functions.push(name);
            proof {
                assert(name@ == tviews[k as int]);
                assert(names_view(functions@) =~= names_view(prev).push(name@));
            }
        }
        k = k + 1;
    }
    proof {
        assert(tviews.take(k as int) =~= tviews);
    }
    Some(CorpusLine { frequency, functions })
}

} // verus!
