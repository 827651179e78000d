//! Delimiter-flexible line segmentation of a byte stream.
use vstd::prelude::*;

verus! {

/// The byte sequence that ended a line.
#[derive(Clone, Copy, Debug, PartialEq, Eq, Structural)]
pub enum LineDelimiter {
    LF,
    CR,
    CRLF,
    NUL,
}

/// A line as the model sees it: its content and how it ended.
pub type LineRecord = (Seq<u8>, Option<LineDelimiter>);

pub open spec fn is_delim(b: u8) -> bool {
    b == 0u8 || b == 10u8 || b == 13u8
}

/// Index of the first delimiter byte of `s` at or after `i`, or `s.len()`.
pub open spec fn delim_from(s: Seq<u8>, i: nat) -> nat
    decreases s.len() - i,
{
    if i >= s.len() {
        s.len()
    } else if is_delim(s[i as int]) {
        i
    } else {
        delim_from(s, i + 1)
    }
}

pub open spec fn first_delim(s: Seq<u8>) -> nat {
    delim_from(s, 0)
}

/// How the first line of `s` ends; `None` when `s` holds no delimiter byte.
pub open spec fn record_delim(s: Seq<u8>) -> Option<LineDelimiter> {
    let p = first_delim(s) as int;
    if p >= s.len() {
        None
    } else if s[p] == 0u8 {
        Some(LineDelimiter::NUL)
    } else if s[p] == 10u8 {
        Some(LineDelimiter::LF)
    } else if p + 1 < s.len() && s[p + 1] == 10u8 {
        Some(LineDelimiter::CRLF)
    } else {
        Some(LineDelimiter::CR)
    }
}

pub open spec fn delim_width(d: Option<LineDelimiter>) -> nat {
    match d {
        None => 0,
        Some(LineDelimiter::CRLF) => 2,
        Some(_) => 1,
    }
}

/// Number of bytes the first line of `s` takes, its delimiter included.
pub open spec fn record_len(s: Seq<u8>) -> nat {
    first_delim(s) + delim_width(record_delim(s))
}

pub open spec fn first_record(s: Seq<u8>) -> LineRecord {
    (s.take(first_delim(s) as int), record_delim(s))
}

/// Whether the first line of `s` is fixed whatever bytes may follow `s`:
/// always at the end of input, else once a delimiter is seen that is not a
/// CR in last position (which might still become a CRLF).
pub open spec fn decided(s: Seq<u8>, at_end: bool) -> bool {
    let p = first_delim(s) as int;
    at_end || (p < s.len() && !(s[p] == 13u8 && p + 1 == s.len()))
}

/// The lines of a whole input. A NUL-delimited line is the last one: the
/// input is binary from there on.
pub open spec fn segments(s: Seq<u8>) -> Seq<LineRecord>
    decreases s.len(),
{
    if s.len() == 0 {
        seq![]
    } else {
        proof {
            lemma_delim_from(s, 0);
        }
        let r = first_record(s);
        if r.1 == Some(LineDelimiter::NUL) {
            seq![r]
        } else {
            seq![r] + segments(s.skip(record_len(s) as int))
        }
    }
}

pub proof fn lemma_delim_from(s: Seq<u8>, i: nat)
    requires
        i <= s.len(),
    ensures
        i <= delim_from(s, i) <= s.len(),
        forall|j: int| i <= j < delim_from(s, i) ==> !is_delim(#[trigger] s[j]),
        delim_from(s, i) < s.len() ==> is_delim(s[delim_from(s, i) as int]),
    decreases s.len() - i,
{
    if i < s.len() && !is_delim(s[i as int]) {
        lemma_delim_from(s, i + 1);
    }
}

pub proof fn lemma_delim_unique(s: Seq<u8>, i: nat, p: nat)
    requires
        i <= p <= s.len(),
        forall|j: int| i <= j < p ==> !is_delim(#[trigger] s[j]),
        p < s.len() ==> is_delim(s[p as int]),
    ensures
        delim_from(s, i) == p,
    decreases s.len() - i,
{
    if i < p {
        lemma_delim_unique(s, i + 1, p);
    }
}

pub proof fn lemma_record_len(s: Seq<u8>)
    requires
        s.len() > 0,
    ensures
        0 < record_len(s) <= s.len(),
        first_delim(s) <= s.len(),
{
    lemma_delim_from(s, 0);
}

/// A decided line keeps its content, delimiter and length when more input
/// is appended, and what follows it is extended by exactly that input.
pub proof fn lemma_decided_extend(s: Seq<u8>, more: Seq<u8>)
    requires
        decided(s, false),
    ensures
        first_delim(s + more) == first_delim(s),
        record_delim(s + more) == record_delim(s),
        record_len(s + more) == record_len(s),
        first_record(s + more) == first_record(s),
        record_len(s) <= s.len(),
        (s + more).skip(record_len(s) as int) == s.skip(record_len(s) as int) + more,
{
    lemma_delim_from(s, 0);
    let p = first_delim(s);
    let t = s + more;
    assert forall|j: int| 0 <= j < p implies !is_delim(#[trigger] t[j]) by {
        assert(t[j] == s[j]);
    }
    lemma_delim_unique(t, 0, p);
    assert(t.take(p as int) =~= s.take(p as int));
    assert(t.skip(record_len(s) as int) =~= s.skip(record_len(s) as int) + more);
}

/// Index of the first delimiter byte of `data`, or its length; the bytes
/// before `from` are known to hold none.
fn scan_delim(data: &[u8], from: usize) -> (i: usize)
    requires
        from <= data@.len(),
        forall|j: int| 0 <= j < from ==> !is_delim(#[trigger] data@[j]),
    ensures
        i == first_delim(data@),
        i <= data@.len(),
{
    let len = data.len();
    let mut i: usize = from;
    while i < len && !(data[i] == 0u8 || data[i] == 10u8 || data[i] == 13u8)
        invariant
            len == data@.len(),
            i <= len,
            forall|j: int| 0 <= j < i ==> !is_delim(#[trigger] data@[j]),
        decreases len - i,
    {
        i = i + 1;
    }
    proof {
        lemma_delim_unique(data@, 0, i as nat);
    }
    i
}

/// Finds the first line of `data`. `at_end` tells that no byte follows
/// `data`. When the line is decided, its content is appended to `buf` and the
/// number of bytes it takes (delimiter included) and its delimiter are
/// returned; an empty `data` at the end gives `(0, None)`. When more input
/// could still change the answer, `None` is returned and `buf` is unchanged.
pub fn read_line_ext(data: &[u8], at_end: bool, buf: &mut Vec<u8>) -> (r: Option<
    (usize, Option<LineDelimiter>),
>)
    ensures
        r.is_some() == decided(data@, at_end),
        r.is_none() ==> final(buf)@ == old(buf)@,
        r matches Some((n, d)) ==> {
            &&& n == record_len(data@)
            &&& d == record_delim(data@)
            &&& final(buf)@ == old(buf)@ + first_record(data@).0
        },
{
    let i = scan_delim(data, 0);
    line_at(data, i, at_end, buf)
}

/// The first line of `data`, as `read_line_ext` gives it, once the index
/// `i` of the first delimiter byte is known.
fn line_at(data: &[u8], i: usize, at_end: bool, buf: &mut Vec<u8>) -> (r: Option<
    (usize, Option<LineDelimiter>),
>)
    requires
        i == first_delim(data@),
        i <= data@.len(),
    ensures
        r.is_some() == decided(data@, at_end),
        r.is_none() ==> final(buf)@ == old(buf)@,
        r matches Some((n, d)) ==> {
            &&& n == record_len(data@)
            &&& d == record_delim(data@)
            &&& final(buf)@ == old(buf)@ + first_record(data@).0
        },
{
    let len = data.len();
    proof {
        lemma_delim_from(data@, 0);
    }
    let delim: Option<LineDelimiter>;
    let n: usize;
    if i == len {
        if !at_end {
            return None;
        }
        delim = None;
        n = i;
    } else if data[i] == 0u8 {
        delim = Some(LineDelimiter::NUL);
        n = i + 1;
    } else if data[i] == 10u8 {
        delim = Some(LineDelimiter::LF);
        n = i + 1;
    } else if i + 1 < len {
        if data[i + 1] == 10u8 {
            delim = Some(LineDelimiter::CRLF);
            n = i + 2;
        } else {
            delim = Some(LineDelimiter::CR);
            n = i + 1;
        }
    } else {
        if !at_end {
            return None;
        }
        delim = Some(LineDelimiter::CR);
        n = i + 1;
    }
    let ghost start = buf@;
    let mut k: usize = 0;
    while k < i
        invariant
            k <= i,
            i <= len,
            len == data@.len(),
            buf@ == start + data@.take(k as int),
        decreases i - k,
    {
        buf.push(data[k]);
        k = k + 1;
        proof {
            assert(data@.take(k as int) =~= data@.take(k - 1) + seq![data@[k - 1]]);
        }
    }
    Some((n, delim))
}

/// The bytes that a delimiter stands for.
pub open spec fn delim_bytes(d: LineDelimiter) -> Seq<u8> {
    match d {
        LineDelimiter::LF => seq![10u8],
        LineDelimiter::CR => seq![13u8],
        LineDelimiter::CRLF => seq![13u8, 10u8],
        LineDelimiter::NUL => seq![0u8],
    }
}

#[verifier::opaque]
pub open spec fn no_delims(s: Seq<u8>) -> bool {
    forall|i: int| 0 <= i < s.len() ==> !is_delim(#[trigger] s[i])
}

/// Each of `parts` followed by its delimiter, then `tail`.
pub open spec fn join_lines(parts: Seq<Seq<u8>>, delims: Seq<LineDelimiter>, tail: Seq<u8>) -> Seq<
    u8,
>
    decreases parts.len(),
{
    if parts.len() == 0 {
        tail
    } else {
        parts[0] + delim_bytes(delims[0]) + join_lines(parts.drop_first(), delims.drop_first(), tail)
    }
}

/// The lines that `join_lines` is meant to give back: each part with its
/// delimiter, then `tail` without one unless it is empty.
pub open spec fn joined_records(
    parts: Seq<Seq<u8>>,
    delims: Seq<LineDelimiter>,
    tail: Seq<u8>,
) -> Seq<LineRecord> {
    Seq::new(parts.len(), |i: int| (parts[i], Some(delims[i]))) + if tail.len() > 0 {
        seq![(tail, None::<LineDelimiter>)]
    } else {
        Seq::<LineRecord>::empty()
    }
}

proof fn lemma_join_first(parts: Seq<Seq<u8>>, delims: Seq<LineDelimiter>, tail: Seq<u8>)
    requires
        parts.len() == delims.len(),
        forall|i: int| 0 <= i < parts.len() ==> no_delims(#[trigger] parts[i]),
        no_delims(tail),
        join_lines(parts, delims, tail).len() > 0,
        join_lines(parts, delims, tail)[0] == 10u8,
    ensures
        parts.len() > 0,
        parts[0].len() == 0,
        delims[0] == LineDelimiter::LF,
{
    reveal(no_delims);
    if parts.len() == 0 {
        assert(!is_delim(tail[0]));
    } else {
        assert(no_delims(parts[0]));
        if parts[0].len() > 0 {
            assert(!is_delim(parts[0][0]));
        }
    }
}

proof fn lemma_first_of_join(head: Seq<u8>, head_delim: LineDelimiter, rest: Seq<u8>)
    requires
        no_delims(head),
        head_delim != LineDelimiter::NUL,
        head_delim == LineDelimiter::CR && rest.len() > 0 ==> rest[0] != 10u8,
    ensures
        (head + delim_bytes(head_delim) + rest).len() > 0,
        first_record(head + delim_bytes(head_delim) + rest) == (head, Some(head_delim)),
        (head + delim_bytes(head_delim) + rest).skip(record_len(head + delim_bytes(head_delim) + rest) as int)
            == rest,
{
    reveal(no_delims);
    let s = head + delim_bytes(head_delim) + rest;
    let n = head.len();
    assert forall|j: int| 0 <= j < n implies !is_delim(#[trigger] s[j]) by {
        assert(s[j] == head[j]);
    }
    assert(s[n as int] == delim_bytes(head_delim)[0]);
    lemma_delim_unique(s, 0, n);
    if head_delim == LineDelimiter::CR {
        assert(n + 1 < s.len() ==> s[n + 1int] == rest[0]);
    }
    if head_delim == LineDelimiter::CRLF {
        assert(s[n + 1int] == 10u8);
    }
    assert(record_delim(s) == Some(head_delim));
    assert(s.skip(record_len(s) as int) =~= rest);
    assert(s.take(n as int) =~= head);
}

/// Segmenting lines joined with LF, CR or CRLF, followed by a tail without a
/// delimiter, gives each line back with its delimiter, and the tail as a last
/// line without one unless the tail is empty. The one input left out is a CR
/// followed by an empty line that ends in LF: those bytes read as one CRLF.
pub proof fn lemma_segments_join(parts: Seq<Seq<u8>>, delims: Seq<LineDelimiter>, tail: Seq<u8>)
    requires
        parts.len() == delims.len(),
        forall|i: int| 0 <= i < parts.len() ==> no_delims(#[trigger] parts[i]),
        no_delims(tail),
        forall|i: int| 0 <= i < delims.len() ==> #[trigger] delims[i] != LineDelimiter::NUL,
        forall|i: int|
            #![trigger delims[i], parts[i + 1]]
            0 <= i < parts.len() - 1 && delims[i] == LineDelimiter::CR && parts[i + 1].len() == 0
                ==> delims[i + 1] != LineDelimiter::LF,
    ensures
        segments(join_lines(parts, delims, tail)) == joined_records(parts, delims, tail),
    decreases parts.len(),
{
    let s = join_lines(parts, delims, tail);
    if parts.len() == 0 {
        lemma_segments_tail(tail);
        assert(joined_records(parts, delims, tail) =~= segments(tail));
    } else {
        let head = parts[0];
        let head_delim = delims[0];
        let ps = parts.drop_first();
        let ds = delims.drop_first();
        let rest = join_lines(ps, ds, tail);
        assert(s == head + delim_bytes(head_delim) + rest);
        assert(no_delims(head));
        lemma_join_shift(parts, delims, tail);
        if head_delim == LineDelimiter::CR && rest.len() > 0 && rest[0] == 10u8 {
            lemma_join_first(ps, ds, tail);
            assert(delims[1] != LineDelimiter::LF);
        }
        lemma_first_of_join(head, head_delim, rest);
        assert(segments(s) == seq![(head, Some(head_delim))] + segments(rest));
        lemma_segments_join(ps, ds, tail);
        lemma_joined_records_cons(parts, delims, tail);
    }
}

proof fn lemma_join_shift(parts: Seq<Seq<u8>>, delims: Seq<LineDelimiter>, tail: Seq<u8>)
    requires
        parts.len() == delims.len(),
        parts.len() > 0,
        forall|i: int| 0 <= i < parts.len() ==> no_delims(#[trigger] parts[i]),
        forall|i: int| 0 <= i < delims.len() ==> #[trigger] delims[i] != LineDelimiter::NUL,
        forall|i: int|
            #![trigger delims[i], parts[i + 1]]
            0 <= i < parts.len() - 1 && delims[i] == LineDelimiter::CR && parts[i + 1].len() == 0
                ==> delims[i + 1] != LineDelimiter::LF,
    ensures
        ({
            let ps = parts.drop_first();
            let ds = delims.drop_first();
            &&& forall|i: int| 0 <= i < ps.len() ==> no_delims(#[trigger] ps[i])
            &&& forall|i: int| 0 <= i < ds.len() ==> #[trigger] ds[i] != LineDelimiter::NUL
            &&& forall|i: int|
                #![trigger ds[i], ps[i + 1]]
                0 <= i < ps.len() - 1 && ds[i] == LineDelimiter::CR && ps[i + 1].len() == 0
                    ==> ds[i + 1] != LineDelimiter::LF
        }),
{
    let ps = parts.drop_first();
    let ds = delims.drop_first();
    assert forall|i: int| 0 <= i < ps.len() implies no_delims(#[trigger] ps[i]) by {
        assert(ps[i] == parts[i + 1]);
    }
    assert forall|i: int|
        #![trigger ds[i], ps[i + 1]]
        0 <= i < ps.len() - 1 && ds[i] == LineDelimiter::CR && ps[i + 1].len() == 0 implies ds[i
            + 1] != LineDelimiter::LF by {
        assert(delims[i + 1] == LineDelimiter::CR);
        assert(parts[i + 2] == ps[i + 1]);
    }
    assert forall|i: int| 0 <= i < ds.len() implies #[trigger] ds[i] != LineDelimiter::NUL by {
        assert(delims[i + 1] != LineDelimiter::NUL);
    }
}

proof fn lemma_segments_tail(tail: Seq<u8>)
    requires
        no_delims(tail),
    ensures
        segments(tail) == (if tail.len() > 0 {
            seq![(tail, None::<LineDelimiter>)]
        } else {
            Seq::<LineRecord>::empty()
        }),
{
    reveal(no_delims);
    if tail.len() > 0 {
        lemma_delim_unique(tail, 0, tail.len());
        assert(tail.take(tail.len() as int) =~= tail);
        assert(tail.skip(tail.len() as int) =~= Seq::<u8>::empty());
        assert(record_delim(tail) == None::<LineDelimiter>);
        assert(record_len(tail) == tail.len());
        assert(first_record(tail) == (tail, None::<LineDelimiter>));
        assert(segments(Seq::<u8>::empty()) == Seq::<LineRecord>::empty());
        assert(segments(tail) == seq![(tail, None::<LineDelimiter>)] + segments(
            Seq::<u8>::empty(),
        ));
        assert(seq![(tail, None::<LineDelimiter>)] + Seq::<LineRecord>::empty() =~= seq![
            (tail, None::<LineDelimiter>),
        ]);
    }
}

proof fn lemma_joined_records_cons(parts: Seq<Seq<u8>>, delims: Seq<LineDelimiter>, tail: Seq<u8>)
    requires
        parts.len() == delims.len(),
        parts.len() > 0,
    ensures
        joined_records(parts, delims, tail) == seq![(parts[0], Some(delims[0]))]
            + joined_records(parts.drop_first(), delims.drop_first(), tail),
{
    assert(joined_records(parts, delims, tail) =~= seq![(parts[0], Some(delims[0]))]
        + joined_records(parts.drop_first(), delims.drop_first(), tail));
}

/// What one pull from a [`Lines`] produced.
#[derive(Debug)]
pub enum LineStep {
    /// A line: its content, how it ended, and the offset of its first byte.
    Line(Vec<u8>, Option<LineDelimiter>, u64),
    /// The buffered bytes do not decide the next line: feed more input.
    NeedInput,
    /// No line follows.
    End,
}

/// An incremental segmenter: input arrives in chunks through `feed`, the end
/// of input is announced by `finish`, and lines are pulled one at a time with
/// `next_line`. Lines may span any number of chunks, and a CR at the end of a
/// chunk waits for the next byte before it is classified.
pub struct Lines {
    buf: Vec<u8>,
    pos: usize,
    clean: usize,
    offset: u64,
    at_end: bool,
    stopped: bool,
    input: Ghost<Seq<u8>>,
    records: Ghost<Seq<LineRecord>>,
}

impl Lines {
    /// All bytes fed so far.
    pub closed spec fn input(&self) -> Seq<u8> {
        self.input@
    }

    /// All lines produced so far.
    pub closed spec fn records(&self) -> Seq<LineRecord> {
        self.records@
    }

    /// The bytes fed but not yet part of a produced line.
    pub closed spec fn pending(&self) -> Seq<u8> {
        self.buf@.skip(self.pos as int)
    }

    /// Offset, from the start of input, of the first pending byte.
    pub closed spec fn spec_offset(&self) -> nat {
        self.offset as nat
    }

    pub closed spec fn at_end(&self) -> bool {
        self.at_end
    }

    /// A NUL-delimited line was produced: no line follows.
    pub closed spec fn stopped(&self) -> bool {
        self.stopped
    }

    pub closed spec fn wf(&self) -> bool {
        &&& self.pos <= self.buf@.len()
        &&& self.clean <= self.pending().len()
        &&& forall|k: int| 0 <= k < self.clean ==> !is_delim(#[trigger] self.pending()[k])
        &&& self.input@.len() <= u64::MAX
        &&& self.offset + self.pending().len() == self.input@.len()
        &&& self.input@.skip(self.offset as int) == self.pending()
        &&& !self.at_end ==> forall|more: Seq<u8>|
            #![trigger segments(self.input@ + more)]
            segments(self.input@ + more) == self.records@ + (if self.stopped {
                Seq::<LineRecord>::empty()
            } else {
                segments(self.pending() + more)
            })
        &&& self.at_end ==> segments(self.input@) == self.records@ + (if self.stopped {
            Seq::<LineRecord>::empty()
        } else {
            segments(self.pending())
        })
    }

    /// The pending bytes are the tail of the input after the offset, and the
    /// input length fits in a `u64`.
    pub proof fn lemma_offset_bound(&self)
        requires
            self.wf(),
        ensures
            self.spec_offset() + self.pending().len() == self.input().len(),
            self.input().len() <= u64::MAX,
    {
    }

    /// A segmenter that has seen no input.
    pub fn new() -> (r: Lines)
        ensures
            r.wf(),
            r.input() == Seq::<u8>::empty(),
            r.pending() == Seq::<u8>::empty(),
            r.records() == Seq::<LineRecord>::empty(),
            r.spec_offset() == 0,
            !r.at_end(),
            !r.stopped(),
    {
        let r = Lines {
            buf: Vec::new(),
            pos: 0,
            clean: 0,
            offset: 0,
            at_end: false,
            stopped: false,
            input: Ghost(Seq::empty()),
            records: Ghost(Seq::empty()),
        };
        assert forall|more: Seq<u8>| #![trigger segments(r.input@ + more)]
            segments(r.input@ + more) == r.records@ + segments(r.pending() + more) by {
            assert(r.input@ + more =~= more);
            assert(r.pending() + more =~= more);
            assert(r.records@ + segments(more) =~= segments(more));
        }
        r
    }

    /// Offset, from the start of input, of the next line.
    pub fn offset(&self) -> (r: u64)
        requires
            self.wf(),
        ensures
            r == self.spec_offset(),
    {
        self.offset
    }

    /// Whether the end of input was announced.
    pub fn is_at_end(&self) -> (r: bool)
        ensures
            r == self.at_end(),
    {
        self.at_end
    }

    /// Appends `chunk` to the input. Refused, with nothing changed, after
    /// `finish` or when the input length would no longer fit in a `u64`.
    pub fn feed(&mut self, chunk: &[u8]) -> (accepted: bool)
        requires
            old(self).wf(),
        ensures
            final(self).wf(),
            accepted == (!old(self).at_end() && old(self).input().len() + chunk@.len()
                <= u64::MAX),
            accepted ==> final(self).input() == old(self).input() + chunk@,
            accepted ==> final(self).pending() == old(self).pending() + chunk@,
            !accepted ==> final(self).input() == old(self).input(),
            !accepted ==> final(self).pending() == old(self).pending(),
            final(self).records() == old(self).records(),
            final(self).spec_offset() == old(self).spec_offset(),
            final(self).at_end() == old(self).at_end(),
            final(self).stopped() == old(self).stopped(),
    {
        if self.at_end {
            return false;
        }
        let buffered = self.buf.len() - self.pos;
        if chunk.len() as u128 + self.offset as u128 + buffered as u128 > u64::MAX as u128 {
            return false;
        }
        let ghost old_pending = self.pending();
        let ghost old_input = self.input@;
        if self.pos > 0 {
            let mut nb: Vec<u8> = Vec::new();
            let mut i: usize = self.pos;
            while i < self.buf.len()
                invariant
                    self.pos <= i <= self.buf@.len(),
                    nb@ == self.buf@.subrange(self.pos as int, i as int),
                    self.clean == old(self).clean,
                    self.offset == old(self).offset,
                    self.input == old(self).input,
                    self.records == old(self).records,
                    self.stopped == old(self).stopped,
                    self.at_end == old(self).at_end,
                    old_input == old(self).input@,
                    old_pending == old(self).pending(),
                decreases self.buf@.len() - i,
            {
                nb.push(self.buf[i]);
                i = i + 1;
                proof {
                    assert(nb@ =~= self.buf@.subrange(self.pos as int, i as int));
                }
            }
            self.buf = nb;
            self.pos = 0;
        }
        assert(self.buf@ =~= old_pending);
        let mut j: usize = 0;
        while j < chunk.len()
            invariant
                j <= chunk@.len(),
                self.pos == 0,
                self.buf@ == old_pending + chunk@.take(j as int),
                self.clean == old(self).clean,
                self.offset == old(self).offset,
                self.input == old(self).input,
                self.records == old(self).records,
                self.stopped == old(self).stopped,
                self.at_end == old(self).at_end,
                old_input == old(self).input@,
                old_pending == old(self).pending(),
            decreases chunk@.len() - j,
        {
            self.buf.push(chunk[j]);
            j = j + 1;
            proof {
                assert(chunk@.take(j as int) =~= chunk@.take(j - 1) + seq![chunk@[j - 1]]);
            }
        }
        proof {
            assert(self.buf@ =~= old_pending + chunk@);
        }
        self.input = Ghost(old_input + chunk@);
        proof {
            assert(self.pending() =~= old_pending + chunk@);
            assert forall|k: int| 0 <= k < self.clean implies !is_delim(
                #[trigger] self.pending()[k],
            ) by {
                assert(self.pending()[k] == old_pending[k]);
            }
            assert(self.input@.skip(self.offset as int) =~= old_input.skip(self.offset as int)
                + chunk@);
            assert forall|more: Seq<u8>| #![trigger segments(self.input@ + more)]
                segments(self.input@ + more) == self.records@ + (if self.stopped {
                    Seq::<LineRecord>::empty()
                } else {
                    segments(self.pending() + more)
                }) by {
                assert(self.input@ + more =~= old_input + (chunk@ + more));
                assert(self.pending() + more =~= old_pending + (chunk@ + more));
                assert(segments(old_input + (chunk@ + more)) == self.records@ + (
                if self.stopped {
                    Seq::<LineRecord>::empty()
                } else {
                    segments(old_pending + (chunk@ + more))
                }));
            }
        }
        true
    }

    /// Produces the next line when the buffered input decides it.
    pub fn next_line(&mut self) -> (r: LineStep)
        requires
            old(self).wf(),
        ensures
            final(self).wf(),
            final(self).input() == old(self).input(),
            final(self).at_end() == old(self).at_end(),
            match r {
                LineStep::NeedInput => {
                    &&& !old(self).at_end()
                    &&& !old(self).stopped()
                    &&& !decided(old(self).pending(), false)
                    &&& final(self).pending() == old(self).pending()
                    &&& final(self).records() == old(self).records()
                    &&& final(self).spec_offset() == old(self).spec_offset()
                    &&& final(self).stopped() == old(self).stopped()
                },
                LineStep::End => {
                    &&& old(self).stopped() || (old(self).at_end() && old(self).pending().len()
                        == 0)
                    &&& final(self).pending() == old(self).pending()
                    &&& final(self).records() == old(self).records()
                    &&& final(self).spec_offset() == old(self).spec_offset()
                    &&& final(self).stopped() == old(self).stopped()
                    &&& old(self).at_end() ==> final(self).records() == segments(
                        final(self).input(),
                    )
                },
                LineStep::Line(content, delim, offset) => {
                    let p = old(self).pending();
                    &&& !old(self).stopped()
                    &&& p.len() > 0
                    &&& decided(p, old(self).at_end())
                    &&& (content@, delim) == first_record(p)
                    &&& offset == old(self).spec_offset()
                    &&& 0 < record_len(p) <= p.len()
                    &&& final(self).records() == old(self).records().push((content@, delim))
                    &&& final(self).pending() == p.skip(record_len(p) as int)
                    &&& final(self).spec_offset() == old(self).spec_offset() + record_len(p)
                    &&& final(self).stopped() == (delim == Some(LineDelimiter::NUL))
                },
            },
    {
        if self.stopped {
            return LineStep::End;
        }
        if self.at_end && self.pos == self.buf.len() {
            return LineStep::End;
        }
        let ghost p = self.pending();
        let ghost old_records = self.records@;
        let mut content: Vec<u8> = Vec::new();
        let rest = self.buf.as_slice().split_at(self.pos).1;
        assert(rest@ =~= p);
        let i = scan_delim(rest, self.clean);
        let res = line_at(rest, i, self.at_end, &mut content);
        match res {
            None => {
                proof {
                    lemma_delim_from(p, 0);
                }
                self.clean = i;
                return LineStep::NeedInput;
            },
            Some((n, delim)) => {
                proof {
                    lemma_record_len(p);
                    assert(content@ =~= first_record(p).0);
                }
                let start = self.offset;
                let blen = self.buf.len();
                assert(self.pos + n <= blen);
                self.pos = self.pos + n;
                self.clean = 0;
                self.offset = self.offset + n as u64;
                if delim == Some(LineDelimiter::NUL) {
                    self.stopped = true;
                }
                self.records = Ghost(old_records.push((content@, delim)));
                proof {
                    let rec = (content@, delim);
                    assert(self.pending() =~= p.skip(n as int));
                    assert(self.input@.skip(self.offset as int) =~= self.pending()) by {
                        assert(self.input@.skip(start as int) == p);
                        assert(self.input@.skip(self.offset as int) =~= p.skip(n as int));
                    }
                    if !self.at_end {
                        assert forall|more: Seq<u8>| #![trigger segments(self.input@ + more)]
                            segments(self.input@ + more) == self.records@ + (if self.stopped {
                                Seq::<LineRecord>::empty()
                            } else {
                                segments(self.pending() + more)
                            }) by {
                            lemma_decided_extend(p, more);
                            assert((p + more).len() > 0);
                            assert(segments(self.input@ + more) == old_records + segments(
                                p + more,
                            ));
                            if self.stopped {
                                assert(segments(p + more) == seq![rec]);
                                assert(self.records@ + Seq::<LineRecord>::empty()
                                    =~= old_records + seq![rec]);
                            } else {
                                assert(segments(p + more) == seq![rec] + segments(
                                    self.pending() + more,
                                ));
                                assert(self.records@ + segments(self.pending() + more)
                                    =~= old_records + (seq![rec] + segments(
                                    self.pending() + more,
                                )));
                            }
                        }
                    } else {
                        if self.stopped {
                            assert(segments(p) == seq![rec]);
                            assert(self.records@ + Seq::<LineRecord>::empty() =~= old_records
                                + seq![rec]);
                        } else {
                            assert(segments(p) == seq![rec] + segments(self.pending()));
                            assert(self.records@ + segments(self.pending()) =~= old_records + (
                            seq![rec] + segments(self.pending())));
                        }
                    }
                }
                return LineStep::Line(content, delim, start);
            },
        }
    }

    /// Announces the end of input.
    pub fn finish(&mut self)
        requires
            old(self).wf(),
        ensures
            final(self).wf(),
            final(self).at_end(),
            final(self).input() == old(self).input(),
            final(self).pending() == old(self).pending(),
            final(self).records() == old(self).records(),
            final(self).spec_offset() == old(self).spec_offset(),
            final(self).stopped() == old(self).stopped(),
    {
        if !self.at_end {
            proof {
                let e = Seq::<u8>::empty();
                assert(self.input@ + e =~= self.input@);
                assert(self.pending() + e =~= self.pending());
                assert(segments(self.input@ + e) == self.records@ + (if self.stopped {
                    Seq::<LineRecord>::empty()
                } else {
                    segments(self.pending() + e)
                }));
            }
            self.at_end = true;
        }
    }
}

/// Splits a whole input into its lines.
pub fn lines_of(data: &[u8]) -> (r: Vec<(Vec<u8>, Option<LineDelimiter>)>)
    requires
        data@.len() <= u64::MAX,
    ensures
        r@.len() == segments(data@).len(),
        forall|i: int|
            0 <= i < r@.len() ==> (#[trigger] r@[i]).0@ == segments(data@)[i].0 && r@[i].1
                == segments(data@)[i].1,
{
    let mut lines = Lines::new();
    let ok = lines.feed(data);
    proof {
        assert(Seq::<u8>::empty() + data@ =~= data@);
    }
    lines.finish();
    let mut out: Vec<(Vec<u8>, Option<LineDelimiter>)> = Vec::new();
    loop
        invariant
            lines.wf(),
            lines.at_end(),
            lines.input() == data@,
            out@.len() == lines.records().len(),
            forall|i: int|
                0 <= i < out@.len() ==> (#[trigger] out@[i]).0@ == lines.records()[i].0
                    && out@[i].1 == lines.records()[i].1,
        decreases lines.pending().len(),
    {
        match lines.next_line() {
            LineStep::Line(content, delim, _) => {
                out.push((content, delim));
            },
            LineStep::NeedInput => {},
            LineStep::End => {
                return out;
            },
        }
    }
}

} // verus!
