//! Text as sequences of characters: splitting on a delimiter, and moving
//! between `String` and `Vec<char>`.

use vstd::prelude::*;

verus! {

/// The first index at or after `from` where `d` occurs in `s`, or `s.len()`.
pub open spec fn find_seq<T>(s: Seq<T>, d: Seq<T>, from: int) -> int
    decreases s.len() - from,
{
    if from < 0 || from >= s.len() || from + d.len() > s.len() {
        s.len() as int
    } else if s.subrange(from, from + d.len()) == d {
        from
    } else {
        find_seq(s, d, from + 1)
    }
}

/// The pieces of `s` between occurrences of a non-empty delimiter `d`, as
/// `str::split` gives them (empty pieces included).
pub open spec fn split_on<T>(s: Seq<T>, d: Seq<T>) -> Seq<Seq<T>>
    decreases s.len(),
{
    let i = find_seq(s, d, 0);
    if d.len() == 0 || i < 0 || i + d.len() > s.len() {
        seq![s]
    } else {
        seq![s.subrange(0, i)] + split_on(s.subrange(i + d.len(), s.len() as int), d)
    }
}

/// The non-empty pieces of a comma-separated list.
pub open spec fn csv_items(s: Seq<char>) -> Seq<Seq<char>> {
    split_on(s, seq![',']).filter(|p: Seq<char>| p.len() > 0)
}

pub proof fn lemma_find_seq_bounds<T>(s: Seq<T>, d: Seq<T>, from: int)
    requires
        0 <= from,
    ensures
        from <= find_seq(s, d, from) <= s.len() || find_seq(s, d, from) == s.len(),
        find_seq(s, d, from) < s.len() ==> find_seq(s, d, from) + d.len() <= s.len()
            && s.subrange(find_seq(s, d, from), find_seq(s, d, from) + d.len()) == d,
    decreases s.len() - from,
{
    if from < s.len() && !(from + d.len() > s.len()) && s.subrange(from, from + d.len()) != d {
        lemma_find_seq_bounds(s, d, from + 1);
    }
}

/// What `str::to_lowercase` makes of a text.
pub uninterp spec fn lower_of(s: Seq<char>) -> Seq<char>;

/// Relies on `str::to_lowercase`: the result depends on the characters alone.
#[verifier::external_body]
pub fn lowercase(s: &str) -> (r: String)
    ensures
        r@ == lower_of(s@),
{
    s.to_lowercase()
}

/// Relies on `str::chars`, collected: the characters of a string in order.
#[verifier::external_body]
pub fn chars_of(s: &str) -> (r: Vec<char>)
    ensures
        r@ == s@,
{
    s.chars().collect()
}

/// Relies on `String: FromIterator<char>`: a string of exactly these characters.
#[verifier::external_body]
pub fn string_of(cs: &[char]) -> (r: String)
    ensures
        r@ == cs@,
{
    cs.iter().collect()
}

fn occurs_at(s: &Vec<char>, d: &[char], i: usize) -> (r: bool)
    requires
        i + d@.len() <= s@.len(),
    ensures
        r == (s@.subrange(i as int, i + d@.len()) == d@),
{
    let n = s.len();
    let mut k: usize = 0;
    while k < d.len()
        invariant
            i + d@.len() <= s@.len(),
            s@.len() == n,
            k <= d@.len(),
            forall|m: int| 0 <= m < k ==> s@[i + m] == d@[m],
        decreases d@.len() - k,
    {
        if s[i + k] != d[k] {
            assert(s@.subrange(i as int, i + d@.len())[k as int] != d@[k as int]);
            return false;
        }
        k = k + 1;
    }
    assert(s@.subrange(i as int, i + d@.len()) =~= d@);
    true
}

/// Index of the first occurrence of `d` in `s` at or after `from`, or `s.len()`.
pub fn find_chars(s: &Vec<char>, d: &[char], from: usize) -> (r: usize)
    requires
        from <= s@.len(),
    ensures
        r as int == find_seq(s@, d@, from as int),
{
    if d.len() > s.len() {
        return s.len();
    }
    let last = s.len() - d.len();
    let mut i = from;
    while i <= last && i < s.len()
        invariant
            from <= i <= s@.len(),
            last == s@.len() - d@.len(),
            find_seq(s@, d@, from as int) == find_seq(s@, d@, i as int),
        decreases s@.len() - i,
    {
        if occurs_at(s, d, i) {
            return i;
        }
        i = i + 1;
    }
    s.len()
}

pub open spec fn pieces_view(v: Seq<Vec<char>>) -> Seq<Seq<char>> {
    v.map_values(|p: Vec<char>| p@)
}

/// The pieces of `s` between occurrences of `d`.
pub fn split_chars(s: &Vec<char>, d: &[char]) -> (r: Vec<Vec<char>>)
    requires
        d@.len() > 0,
    ensures
        pieces_view(r@) == split_on(s@, d@),
{
    let mut out: Vec<Vec<char>> = Vec::new();
    let mut start: usize = 0;
    assert(s@.subrange(0, s@.len() as int) =~= s@);
    assert(pieces_view(out@) =~= Seq::<Seq<char>>::empty());
    loop
        invariant
            d@.len() > 0,
            start <= s@.len(),
            split_on(s@, d@) == pieces_view(out@) + split_on(s@.subrange(start as int, s@.len() as int), d@),
        decreases s@.len() - start,
    {
        let ghost rest = s@.subrange(start as int, s@.len() as int);
        let i = find_chars(s, d, start);
        proof {
            lemma_find_seq_bounds(s@, d@, start as int);
            lemma_find_in_rest(s@, d@, start as int, start as int);
        }
        let mut piece: Vec<char> = Vec::new();
        let mut k = start;
        while k < i
            invariant
                start <= k <= i <= s@.len(),
                piece@ == s@.subrange(start as int, k as int),
            decreases i - k,
        {
            piece.push(s[k]);
            assert(s@.subrange(start as int, k + 1) =~= s@.subrange(start as int, k as int).push(s@[k as int]));
            k = k + 1;
        }
        let ghost before = pieces_view(out@);
        let ghost old_out = out@;
        out.push(piece);
        assert(out@ == old_out.push(piece));
        assert(pieces_view(out@) =~= before.push(s@.subrange(start as int, i as int)));
        if i == s.len() {
            assert(rest.subrange(0, rest.len() as int) =~= rest);
            assert(split_on(rest, d@) == seq![rest]);
            assert(s@.subrange(start as int, i as int) =~= rest);
            assert(split_on(s@, d@) =~= pieces_view(out@));
            return out;
        }
        let next = i + d.len();
        assert(rest.subrange(i - start, rest.len() as int) =~= s@.subrange(i as int, s@.len() as int));
        assert(rest.subrange(0, i - start) =~= s@.subrange(start as int, i as int));
        assert(rest.subrange(i - start + d@.len(), rest.len() as int) =~= s@.subrange(next as int, s@.len() as int));
        assert(split_on(rest, d@) == seq![rest.subrange(0, i - start)] + split_on(
            rest.subrange(i - start + d@.len(), rest.len() as int),
            d@,
        ));
        assert(pieces_view(out@) + split_on(s@.subrange(next as int, s@.len() as int), d@) =~= before
            + split_on(rest, d@));
        start = next;
    }
}

/// Where `d` first occurs in `s[start..]`, counted from `start`.
pub proof fn lemma_find_in_rest<T>(s: Seq<T>, d: Seq<T>, start: int, from: int)
    requires
        0 <= start <= from <= s.len(),
    ensures
        find_seq(s.subrange(start, s.len() as int), d, from - start) == find_seq(s, d, from) - start,
    decreases s.len() - from,
{
    let rest = s.subrange(start, s.len() as int);
    if from < s.len() && !(from + d.len() > s.len()) {
        assert(rest.subrange(from - start, from - start + d.len()) =~= s.subrange(from, from + d.len()));
        if s.subrange(from, from + d.len()) != d {
            lemma_find_in_rest(s, d, start, from + 1);
        }
    }
}

} // verus!
