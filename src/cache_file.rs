//! Splitting a discovery cache stream into records separated by
//! `"\n%%%\n"`, chunk by chunk, without holding more than one record.

use vstd::prelude::*;
use crate::proto::append_range;
use crate::text::{find_seq, lemma_find_in_rest, lemma_find_seq_bounds, split_on};

verus! {

pub open spec fn record_delimiter() -> Seq<u8> {
    seq![10u8, 37, 37, 37, 10]
}

pub open spec fn byte_views(v: Seq<Vec<u8>>) -> Seq<Seq<u8>> {
    v.map_values(|p: Vec<u8>| p@)
}

pub open spec fn non_empty(pieces: Seq<Seq<u8>>) -> Seq<Seq<u8>> {
    pieces.filter(|p: Seq<u8>| p.len() > 0)
}

/// Hands out the records of a cache stream as its bytes come in. Records
/// are the pieces between delimiters; empty ones are skipped.
pub struct CacheFileAnnouncementIterator {
    pending: Vec<u8>,
    seen: Ghost<Seq<u8>>,
    emitted: Ghost<Seq<Seq<u8>>>,
}

impl CacheFileAnnouncementIterator {
    /// Every byte fed so far.
    pub closed spec fn seen(&self) -> Seq<u8> {
        self.seen@
    }

    /// Every piece cut off so far, empty ones included.
    pub closed spec fn emitted(&self) -> Seq<Seq<u8>> {
        self.emitted@
    }

    /// The bytes after the last delimiter.
    pub closed spec fn pending(&self) -> Seq<u8> {
        self.pending@
    }

    pub closed spec fn wf(&self) -> bool {
        &&& find_seq(self.pending@, record_delimiter(), 0) == self.pending@.len()
        &&& forall|t: Seq<u8>| #[trigger] split_on(self.seen@ + t, record_delimiter()) == self.emitted@ + split_on(
            self.pending@ + t,
            record_delimiter(),
        )
    }

    pub fn new() -> (r: CacheFileAnnouncementIterator)
        ensures
            r.wf(),
            r.seen() == Seq::<u8>::empty(),
            r.emitted() == Seq::<Seq<u8>>::empty(),
    {
        let r = CacheFileAnnouncementIterator { pending: Vec::new(), seen: Ghost(Seq::empty()), emitted: Ghost(Seq::empty()) };
        assert forall|t: Seq<u8>| #[trigger] split_on(r.seen@ + t, record_delimiter()) == r.emitted@ + split_on(
            r.pending@ + t,
            record_delimiter(),
        ) by {
            assert(r.seen@ + t =~= t);
            assert(r.pending@ + t =~= t);
            assert(r.emitted@ + split_on(t, record_delimiter()) =~= split_on(t, record_delimiter()));
        }
        r
    }

    /// Takes the next bytes of the stream and returns the records they complete.
    pub fn feed(&mut self, chunk: &[u8]) -> (r: Vec<Vec<u8>>)
        requires
            old(self).wf(),
        ensures
            final(self).wf(),
            final(self).seen() == old(self).seen() + chunk@,
            old(self).emitted().len() <= final(self).emitted().len(),
            final(self).emitted().subrange(0, old(self).emitted().len() as int) == old(self).emitted(),
            byte_views(r@) == non_empty(
                final(self).emitted().subrange(old(self).emitted().len() as int, final(self).emitted().len() as int),
            ),
    {
        let ghost old_emitted = self.emitted@;
        let ghost old_seen = self.seen@;
        let ghost old_pending = self.pending@;
        append_range(&mut self.pending, chunk, 0, chunk.len());
        assert(chunk@.subrange(0, chunk@.len() as int) =~= chunk@);
        self.seen = Ghost(self.seen@ + chunk@);
        assert forall|t: Seq<u8>| #[trigger] split_on(self.seen@ + t, record_delimiter()) == old_emitted + split_on(
            self.pending@ + t,
            record_delimiter(),
        ) by {
            assert(self.seen@ + t =~= old_seen + (chunk@ + t));
            assert(self.pending@ + t =~= old_pending + (chunk@ + t));
            assert(split_on(old_seen + (chunk@ + t), record_delimiter()) == old_emitted + split_on(old_pending + (chunk@ + t), record_delimiter()));
        }
        let delim: [u8; 5] = [10, 37, 37, 37, 10];
        assert(delim@ =~= record_delimiter());
        let mut out: Vec<Vec<u8>> = Vec::new();
        let mut start: usize = 0;
        let ghost mut cut: Seq<Seq<u8>> = Seq::empty();
        assert(self.pending@.subrange(0, self.pending@.len() as int) =~= self.pending@);
        assert(old_emitted + cut =~= old_emitted);
        proof {
            reveal(Seq::filter);
        }
        loop
            invariant
                start <= self.pending@.len(),
                delim@ == record_delimiter(),
                self.seen@ == old_seen + chunk@,
                forall|t: Seq<u8>| #[trigger] split_on(self.seen@ + t, record_delimiter()) == (old_emitted + cut) + split_on(
                    self.pending@.subrange(start as int, self.pending@.len() as int) + t,
                    record_delimiter(),
                ),
                byte_views(out@) == non_empty(cut),
            ensures
                start <= self.pending@.len(),
                self.seen@ == old_seen + chunk@,
                forall|t: Seq<u8>| #[trigger] split_on(self.seen@ + t, record_delimiter()) == (old_emitted + cut) + split_on(
                    self.pending@.subrange(start as int, self.pending@.len() as int) + t,
                    record_delimiter(),
                ),
                byte_views(out@) == non_empty(cut),
                find_seq(self.pending@.subrange(start as int, self.pending@.len() as int), record_delimiter(), 0)
                    == self.pending@.len() - start,
            decreases self.pending@.len() - start,
        {
            let i = find_bytes(&self.pending, delim.as_slice(), start);
            let ghost rest = self.pending@.subrange(start as int, self.pending@.len() as int);
            proof {
                lemma_find_seq_bounds(self.pending@, record_delimiter(), start as int);
                lemma_find_in_rest(self.pending@, record_delimiter(), start as int, start as int);
            }
            if i == self.pending.len() {
                break;
            }
            let mut piece: Vec<u8> = Vec::new();
            append_range(&mut piece, self.pending.as_slice(), start, i);
            let ghost pv = piece@;
            proof {
                let k = i - start;
                assert(rest.subrange(0, k as int) =~= pv);
                assert forall|t: Seq<u8>| #[trigger] split_on(self.seen@ + t, record_delimiter()) == (old_emitted + cut.push(pv)) + split_on(
                    self.pending@.subrange(i + 5, self.pending@.len() as int) + t,
                    record_delimiter(),
                ) by {
                    lemma_split_append(rest, t, record_delimiter());
                    assert(rest.subrange(k + 5, rest.len() as int) =~= self.pending@.subrange(i + 5, self.pending@.len() as int));
                    assert((old_emitted + cut) + (seq![pv] + split_on(self.pending@.subrange(i + 5, self.pending@.len() as int) + t, record_delimiter()))
                        =~= (old_emitted + cut.push(pv)) + split_on(self.pending@.subrange(i + 5, self.pending@.len() as int) + t, record_delimiter()));
                }
                assert(cut.push(pv).drop_last() =~= cut);
                reveal(Seq::filter);
            }
            if piece.len() > 0 {
                let ghost before = out@;
                out.push(piece);
                assert(byte_views(out@) =~= byte_views(before).push(pv));
            }
            proof {
                cut = cut.push(pv);
            }
            start = i + 5;
        }
        let mut rest: Vec<u8> = Vec::new();
        append_range(&mut rest, self.pending.as_slice(), start, self.pending.len());
        assert(rest@ =~= self.pending@.subrange(start as int, self.pending@.len() as int));
        self.pending = rest;
        self.emitted = Ghost(old_emitted + cut);
        proof {
            assert((old_emitted + cut).subrange(0, old_emitted.len() as int) =~= old_emitted);
            assert((old_emitted + cut).subrange(old_emitted.len() as int, (old_emitted + cut).len() as int) =~= cut);
        }
        out
    }

    /// Ends the stream: the bytes after the last delimiter, when there are any.
    pub fn finish(&self) -> (r: Option<Vec<u8>>)
        requires
            self.wf(),
        ensures
            split_on(self.seen(), record_delimiter()) == self.emitted().push(self.pending()),
            self.pending().len() == 0 ==> r is None,
            self.pending().len() > 0 ==> (r matches Some(v) && v@ == self.pending()),
    {
        proof {
            assert(self.seen@ + Seq::<u8>::empty() =~= self.seen@);
            assert(self.pending@ + Seq::<u8>::empty() =~= self.pending@);
            assert(split_on(self.pending@, record_delimiter()) =~= seq![self.pending@]);
        }
        if self.pending.len() == 0 {
            None
        } else {
            let mut v: Vec<u8> = Vec::new();
            append_range(&mut v, self.pending.as_slice(), 0, self.pending.len());
            assert(v@ =~= self.pending@);
            Some(v)
        }
    }
}

/// The records of a stream, however it was cut into chunks: the pieces
/// between delimiters, the bytes after the last one included.
pub proof fn lemma_records_of_stream(it: CacheFileAnnouncementIterator)
    requires
        it.wf(),
    ensures
        split_on(it.seen(), record_delimiter()) == it.emitted().push(it.pending()),
{
    assert(it.seen() + Seq::<u8>::empty() =~= it.seen());
    assert(it.pending() + Seq::<u8>::empty() =~= it.pending());
    assert(split_on(it.pending(), record_delimiter()) =~= seq![it.pending()]);
}

proof fn lemma_find_prefix(s: Seq<u8>, t: Seq<u8>, d: Seq<u8>, from: int)
    requires
        0 <= from,
        find_seq(s, d, from) < s.len(),
    ensures
        find_seq(s + t, d, from) == find_seq(s, d, from),
    decreases s.len() - from,
{
    lemma_find_seq_bounds(s, d, from);
    if from < s.len() && from + d.len() <= s.len() {
        assert((s + t).subrange(from, from + d.len()) =~= s.subrange(from, from + d.len()));
        if s.subrange(from, from + d.len()) != d {
            lemma_find_prefix(s, t, d, from + 1);
        }
    }
}

/// Splitting `s + t` where `s` holds a delimiter: the piece before it, then
/// the rest.
proof fn lemma_split_append(s: Seq<u8>, t: Seq<u8>, d: Seq<u8>)
    requires
        d.len() > 0,
        find_seq(s, d, 0) < s.len(),
    ensures
        split_on(s + t, d) == seq![s.subrange(0, find_seq(s, d, 0))] + split_on(
            s.subrange(find_seq(s, d, 0) + d.len(), s.len() as int) + t,
            d,
        ),
{
    let i = find_seq(s, d, 0);
    lemma_find_seq_bounds(s, d, 0);
    lemma_find_prefix(s, t, d, 0);
    assert((s + t).subrange(0, i) =~= s.subrange(0, i));
    assert((s + t).subrange(i + d.len(), (s + t).len() as int) =~= s.subrange(i + d.len(), s.len() as int) + t);
}

fn occurs_at(s: &Vec<u8>, d: &[u8], i: usize) -> (r: bool)
    requires
        i + d@.len() <= s@.len(),
    ensures
        r == (s@.subrange(i as int, i + d@.len()) == d@),
{
    let n = s.len();
    let mut k: usize = 0;
    while k < d.len()
        invariant
            i + d@.len() <= s@.len(),
            s@.len() == n,
            k <= d@.len(),
            forall|m: int| 0 <= m < k ==> s@[i + m] == d@[m],
        decreases d@.len() - k,
    {
        if s[i + k] != d[k] {
            assert(s@.subrange(i as int, i + d@.len())[k as int] != d@[k as int]);
            return false;
        }
        k = k + 1;
    }
    assert(s@.subrange(i as int, i + d@.len()) =~= d@);
    true
}

fn find_bytes(s: &Vec<u8>, d: &[u8], from: usize) -> (r: usize)
    requires
        from <= s@.len(),
    ensures
        r as int == find_seq(s@, d@, from as int),
{
    if d.len() > s.len() {
        return s.len();
    }
    let last = s.len() - d.len();
    let mut i = from;
    while i <= last && i < s.len()
        invariant
            from <= i <= s@.len(),
            last == s@.len() - d@.len(),
            find_seq(s@, d@, from as int) == find_seq(s@, d@, i as int),
        decreases s@.len() - i,
    {
        if occurs_at(s, d, i) {
            return i;
        }
        i = i + 1;
    }
    s.len()
}

} // verus!
