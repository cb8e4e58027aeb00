//! The query-side rules of the vector store: how many candidates a filtered
//! search asks the index for, which candidates survive the filter, and the
//! pagination of `scroll` with its decimal offsets.
use crate::filter::{evaluate_filter, evaluates, Filter, Metadata};
use crate::text::{numeral, numeral_string};
use vstd::prelude::*;

verus! {

/// A filtered search asks the index for three times as many candidates
/// (at most `usize::MAX`); an unfiltered one for `limit`.
pub fn candidate_limit(limit: usize, filtered: bool) -> (r: usize)
    ensures
        !filtered ==> r == limit,
        filtered ==> r == if 3 * limit <= usize::MAX { 3 * limit } else { usize::MAX as int },
{
    if !filtered {
        limit
    } else if limit <= usize::MAX / 3 {
        limit * 3
    } else {
        usize::MAX
    }
}

/// The positions of the candidates whose metadata the filter accepts.
pub open spec fn accepted(metas: Seq<Option<Metadata>>, f: Filter) -> Seq<int>
    decreases metas.len(),
{
    if metas.len() == 0 {
        Seq::empty()
    } else {
        let rest = accepted(metas.drop_last(), f);
        if evaluates(f, metas.last()) {
            rest.push(metas.len() - 1)
        } else {
            rest
        }
    }
}

pub open spec fn first_n(s: Seq<int>, n: nat) -> Seq<int> {
    if s.len() <= n {
        s
    } else {
        s.take(n as int)
    }
}

/// Which candidates a search returns, in their order: with a filter, the
/// first `limit` that it accepts; without one, the first `limit`.
pub fn select_results(metas: &Vec<Option<Metadata>>, filter: Option<&Filter>, limit: usize) -> (r: Vec<usize>)
    ensures
        match filter {
            Some(f) => r@.map_values(|i: usize| i as int) == first_n(accepted(metas@, *f), limit as nat),
            None => r@.map_values(|i: usize| i as int) == first_n(Seq::new(metas@.len(), |i: int| i), limit as nat),
        },
{
    let mut out: Vec<usize> = Vec::new();
    let mut i: usize = 0;
    let ghost all: Seq<int> = match filter {
        Some(f) => accepted(metas@, *f),
        None => Seq::new(metas@.len(), |q: int| q),
    };
    proof {
        match filter {
            Some(f) => {
                assert(accepted(metas@.take(0), *f) =~= Seq::<int>::empty());
            },
            None => {},
        }
    }
    while i < metas.len() && out.len() < limit
        invariant
            i <= metas@.len(),
            out@.len() <= limit,
            all == match filter {
                Some(f) => accepted(metas@, *f),
                None => Seq::new(metas@.len(), |q: int| q),
            },
            out@.map_values(|x: usize| x as int) == match filter {
                Some(f) => accepted(metas@.take(i as int), *f),
                None => Seq::new(i as nat, |q: int| q),
            },
        decreases metas@.len() - i,
    {
        let keep = match filter {
            Some(f) => evaluate_filter(f, &metas[i]),
            None => true,
        };
        let ghost before = out@.map_values(|x: usize| x as int);
        if keep {
            out.push(i);
        }
        proof {
            match filter {
                Some(f) => {
                    let t = metas@.take(i + 1);
                    assert(t.drop_last() =~= metas@.take(i as int));
                    assert(t.last() == metas@[i as int]);
                    if keep {
                        assert(out@.map_values(|x: usize| x as int) =~= before.push(i as int));
                    } else {
                        assert(out@.map_values(|x: usize| x as int) =~= before);
                    }
                },
                None => {
                    assert(out@.map_values(|x: usize| x as int) =~= before.push(i as int));
                    assert(before.push(i as int) =~= Seq::new((i + 1) as nat, |q: int| q));
                },
            }
        }
        i = i + 1;
    }
    proof {
        lemma_accepted_prefix_done(metas@, filter, i as int, out@.map_values(|x: usize| x as int), limit as nat);
    }
    out
}

proof fn lemma_accepted_grows(metas: Seq<Option<Metadata>>, f: Filter, i: int, j: int)
    requires
        0 <= i <= j <= metas.len(),
    ensures
        accepted(metas.take(i), f).len() <= accepted(metas.take(j), f).len(),
        accepted(metas.take(j), f).take(accepted(metas.take(i), f).len() as int) == accepted(metas.take(i), f),
    decreases j - i,
{
    if i < j {
        lemma_accepted_grows(metas, f, i, j - 1);
        let t = metas.take(j);
        assert(t.drop_last() =~= metas.take(j - 1));
        let a = accepted(metas.take(i), f);
        let b = accepted(metas.take(j - 1), f);
        let c = accepted(t, f);
        assert(c.take(a.len() as int) =~= b.take(a.len() as int));
    } else {
        let a = accepted(metas.take(i), f);
        assert(a.take(a.len() as int) =~= a);
    }
}

proof fn lemma_accepted_prefix_done(metas: Seq<Option<Metadata>>, filter: Option<&Filter>, i: int, got: Seq<int>, limit: nat)
    requires
        0 <= i <= metas.len(),
        got.len() <= limit,
        i == metas.len() || got.len() == limit,
        got == match filter {
            Some(f) => accepted(metas.take(i), *f),
            None => Seq::new(i as nat, |q: int| q),
        },
    ensures
        got == match filter {
            Some(f) => first_n(accepted(metas, *f), limit),
            None => first_n(Seq::new(metas.len(), |q: int| q), limit),
        },
{
    match filter {
        Some(f) => {
            assert(metas.take(metas.len() as int) =~= metas);
            lemma_accepted_grows(metas, *f, i, metas.len() as int);
            let all = accepted(metas, *f);
            if i < metas.len() {
                assert(all.take(limit as int) =~= got);
                if all.len() <= limit {
                    assert(all =~= got);
                }
            }
        },
        None => {
            let all = Seq::new(metas.len(), |q: int| q);
            if i < metas.len() {
                assert(all.take(limit as int) =~= got);
            } else {
                assert(all =~= got);
            }
        },
    }
}

/// How many vectors the filter accepts.
pub fn count_matching(metas: &Vec<Option<Metadata>>, filter: &Filter) -> (r: usize)
    ensures
        r == accepted(metas@, *filter).len(),
{
    let mut n: usize = 0;
    let mut i: usize = 0;
    assert(accepted(metas@.take(0), *filter) =~= Seq::<int>::empty());
    while i < metas.len()
        invariant
            i <= metas@.len(),
            n == accepted(metas@.take(i as int), *filter).len(),
            n <= i,
        decreases metas@.len() - i,
    {
        proof {
            let t = metas@.take(i + 1);
            assert(t.drop_last() =~= metas@.take(i as int));
            assert(t.last() == metas@[i as int]);
        }
        if evaluate_filter(filter, &metas[i]) {
            n = n + 1;
        }
        i = i + 1;
    }
    assert(metas@.take(metas@.len() as int) =~= metas@);
    n
}

/// The value of a decimal numeral: an optional `+`, then one or more
/// ASCII digits.
pub open spec fn digits_value(s: Seq<char>) -> nat
    decreases s.len(),
{
    if s.len() == 0 {
        0
    } else {
        digits_value(s.drop_last()) * 10 + (s.last() as nat - 48) as nat
    }
}

pub open spec fn all_digits(s: Seq<char>) -> bool {
    forall|i: int| 0 <= i < s.len() ==> '0' <= #[trigger] s[i] && s[i] <= '9'
}

/// `s` read as a decimal `usize`, as `str::parse` reads it.
pub open spec fn parsed_usize(s: Seq<char>) -> Option<usize> {
    let d = if s.len() > 0 && s[0] == '+' { s.skip(1) } else { s };
    if d.len() > 0 && all_digits(d) && digits_value(d) <= usize::MAX {
        Some(digits_value(d) as usize)
    } else {
        None
    }
}

proof fn lemma_digits_value_mono(s: Seq<char>, i: int)
    requires
        0 <= i <= s.len(),
        all_digits(s),
    ensures
        digits_value(s.take(i)) <= digits_value(s),
    decreases s.len() - i,
{
    if i < s.len() {
        lemma_digits_value_mono(s, i + 1);
        let t = s.take(i + 1);
        assert(t.drop_last() =~= s.take(i));
        assert(t.last() == s[i]);
    } else {
        assert(s.take(i) =~= s);
    }
}

/// Reads a decimal offset; `None` when the text is not a `usize` numeral.
pub fn parse_usize(s: &str) -> (r: Option<usize>)
    ensures
        r == parsed_usize(s@),
{
    let cs = crate::text::chars_of(s);
    let start: usize = if cs.len() > 0 && cs[0] == '+' { 1 } else { 0 };
    let ghost d = if s@.len() > 0 && s@[0] == '+' { s@.skip(1) } else { s@ };
    proof {
        if start == 0 {
            assert(d =~= s@.skip(0));
        }
    }
    if start >= cs.len() {
        assert(d.len() == 0);
        return None;
    }
    let mut v: usize = 0;
    let mut i: usize = start;
    assert(d.take(0) =~= Seq::<char>::empty());
    while i < cs.len()
        invariant
            start <= i <= cs@.len(),
            cs@ == s@,
            d == s@.skip(start as int),
            d == (if s@.len() > 0 && s@[0] == '+' { s@.skip(1) } else { s@ }),
            all_digits(d.take(i - start)),
            v as nat == digits_value(d.take(i - start)),
        decreases cs@.len() - i,
    {
        let c = cs[i];
        proof {
            let t = d.take(i + 1 - start);
            assert(t.drop_last() =~= d.take(i - start));
            assert(t.last() == c);
        }
        if c < '0' || c > '9' {
            proof {
                assert(d[i - start] == c);
                assert(!all_digits(d)) by {
                    if all_digits(d) {
                        assert('0' <= d[i - start] && d[i - start] <= '9');
                    }
                }
            }
            return None;
        }
        let digit = (c as u32 - 48) as usize;
        proof {
            let t = d.take(i + 1 - start);
            assert(digits_value(t) == digits_value(t.drop_last()) * 10 + (t.last() as nat - 48) as nat);
            assert(digits_value(t) == v * 10 + digit);
        }
        if v > (usize::MAX - digit) / 10 {
            proof {
                assert(all_digits(d.take(i + 1 - start))) by {
                    let t = d.take(i + 1 - start);
                    assert forall|q: int| 0 <= q < t.len() implies '0' <= #[trigger] t[q] && t[q] <= '9' by {
                        if q < t.len() - 1 {
                            assert(t[q] == d.take(i - start)[q]);
                        }
                    }
                }
                assert(digits_value(d.take(i + 1 - start)) > usize::MAX) by (nonlinear_arith)
                    requires
                        digits_value(d.take(i + 1 - start)) == v * 10 + digit,
                        v > (usize::MAX - digit) / 10,
                        digit <= 9,
                ;
                if all_digits(d) {
                    lemma_digits_value_mono(d, i + 1 - start);
                }
            }
            return None;
        }
        v = v * 10 + digit;
        proof {
            let t = d.take(i + 1 - start);
            assert forall|q: int| 0 <= q < t.len() implies '0' <= #[trigger] t[q] && t[q] <= '9' by {
                if q < t.len() - 1 {
                    assert(t[q] == d.take(i - start)[q]);
                }
            }
        }
        i = i + 1;
    }
    proof {
        assert(d.take(cs@.len() - start) =~= d);
    }
    Some(v)
}

/// One page of `scroll` over `total` matching vectors: the positions
/// `[offset, end)` with `end = min(offset + limit, total)`, and the offset
/// of the next page when vectors remain.
pub fn page_bounds(total: usize, offset: usize, limit: usize) -> (r: (usize, usize, Option<usize>))
    ensures
        r.1 as int == if offset + limit < total { offset + limit } else { total as int },
        r.0 == if offset < r.1 { offset } else { r.1 },
        r.2 == if r.1 < total { Some(r.1) } else { None::<usize> },
{
    let end = if offset < total && limit < total - offset {
        offset + limit
    } else {
        total
    };
    let start = if offset < end { offset } else { end };
    let next = if end < total { Some(end) } else { None };
    (start, end, next)
}

/// The text of the next scroll offset.
pub fn offset_text(end: usize) -> (r: String)
    ensures
        r@ == numeral(end as nat, 10),
{
    numeral_string(end as u64, 10)
}


/// One page of `scroll`: the positions of the matching vectors (all of
/// them without a filter) from the offset given as decimal text (0 when
/// absent or not a number), at most `limit` of them, and the text of the
/// next offset when matching vectors remain.
pub fn scroll_page(metas: &Vec<Option<Metadata>>, filter: Option<&Filter>, offset: Option<&str>, limit: usize) -> (r: (Vec<usize>, Option<String>))
    ensures
        ({
            let all = match filter {
                Some(f) => accepted(metas@, *f),
                None => Seq::new(metas@.len(), |i: int| i),
            };
            let start = match offset {
                Some(t) => match parsed_usize(t@) {
                    Some(x) => x as int,
                    None => 0,
                },
                None => 0,
            };
            let end = if start + limit < all.len() { start + limit } else { all.len() as int };
            let from = if start < end { start } else { end };
            &&& r.0@.map_values(|i: usize| i as int) == all.subrange(from, end)
            &&& (end < all.len() ==> (r.1 matches Some(t) && t@ == numeral(end as nat, 10)))
            &&& (end >= all.len() ==> r.1 is None)
        }),
{
    let _n = metas.len();
    let matching = select_results(metas, filter, usize::MAX);
    let ghost all = match filter {
        Some(f) => accepted(metas@, *f),
        None => Seq::new(metas@.len(), |i: int| i),
    };
    proof {
        lemma_accepted_len(metas@, filter);
    }
    let start = match offset {
        Some(t) => match parse_usize(t) {
            Some(x) => x,
            None => 0,
        },
        None => 0,
    };
    let (from, end, next) = page_bounds(matching.len(), start, limit);
    let mut page: Vec<usize> = Vec::new();
    let mut i: usize = from;
    while i < end
        invariant
            from <= i <= end,
            end <= matching@.len(),
            matching@.map_values(|x: usize| x as int) == all,
            page@.map_values(|x: usize| x as int) == all.subrange(from as int, i as int),
        decreases end - i,
    {
        let ghost before = page@.map_values(|x: usize| x as int);
        page.push(matching[i]);
        proof {
            assert(page@.map_values(|x: usize| x as int) =~= before.push(all[i as int]));
            assert(all.subrange(from as int, i + 1) =~= all.subrange(from as int, i as int).push(all[i as int]));
        }
        i = i + 1;
    }
    let text = match next {
        Some(e) => Some(offset_text(e)),
        None => None,
    };
    (page, text)
}

proof fn lemma_accepted_len(metas: Seq<Option<Metadata>>, filter: Option<&Filter>)
    requires
        metas.len() <= usize::MAX,
    ensures
        match filter {
            Some(f) => first_n(accepted(metas, *f), usize::MAX as nat) == accepted(metas, *f),
            None => first_n(Seq::new(metas.len(), |i: int| i), usize::MAX as nat) == Seq::new(metas.len(), |i: int| i),
        },
{
    match filter {
        Some(f) => {
            lemma_accepted_bound(metas, *f);
        },
        None => {},
    }
}

proof fn lemma_accepted_bound(metas: Seq<Option<Metadata>>, f: Filter)
    ensures
        accepted(metas, f).len() <= metas.len(),
    decreases metas.len(),
{
    if metas.len() > 0 {
        lemma_accepted_bound(metas.drop_last(), f);
    }
}
} // verus!
