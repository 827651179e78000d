//! The search engine: per-file decisions on the lines of a segmented input.
use vstd::prelude::*;

use crate::readline::{
    decided, delim_width, first_delim, first_record, is_delim, lemma_delim_from, lemma_record_len,
    record_delim, record_len, segments, LineDelimiter, LineRecord, LineStep, Lines,
};

verus! {

/// Declares the compiled pattern type of `regex`, carried through opaquely.
#[verifier::external_type_specification]
#[verifier::external_body]
pub struct ExRegex(regex::bytes::Regex);

/// Whether the regular expression written `pattern` matches anywhere in
/// `text`.
pub uninterp spec fn pattern_matches(pattern: Seq<char>, text: Seq<u8>) -> bool;

/// A compiled search pattern, kept with the text it was compiled from.
pub struct Pattern {
    source: String,
    re: regex::bytes::Regex,
}

/// Relies on `regex::bytes::Regex::new`: compiles `source`, or fails when it
/// is not a valid regular expression. It does not panic.
#[verifier::external_body]
fn compile(source: String) -> (r: Option<Pattern>)
    ensures
        r matches Some(p) ==> p.source() == source@,
{
    match regex::bytes::Regex::new(&source) {
        Ok(re) => Some(Pattern { source, re }),
        Err(_) => None,
    }
}

/// Relies on `regex::bytes::Regex::is_match`: whether the pattern matches
/// anywhere in `text`, which depends on the pattern and the text alone. It
/// does not panic.
#[verifier::external_body]
fn regex_is_match(p: &Pattern, text: &[u8]) -> (r: bool)
    ensures
        r == pattern_matches(p.source(), text@),
{
    p.re.is_match(text)
}

impl Pattern {
    /// The text the pattern was compiled from.
    pub closed spec fn source(&self) -> Seq<char> {
        self.source@
    }

    /// Compiles `source`; `None` when it is not a valid regular expression.
    pub fn new(source: String) -> (r: Option<Pattern>)
        ensures
            r matches Some(p) ==> p.source() == source@,
    {
        compile(source)
    }

    /// Whether the pattern matches anywhere in `text`.
    pub fn is_match(&self, text: &[u8]) -> (r: bool)
        ensures
            r == pattern_matches(self.source(), text@),
    {
        regex_is_match(self, text)
    }
}

/// The decimal digits of `n`, most significant first, without leading zeros.
pub open spec fn decimal(n: nat) -> Seq<u8>
    decreases n,
{
    if n < 10 {
        seq![(48 + n) as u8]
    } else {
        decimal(n / 10) + seq![(48 + n % 10) as u8]
    }
}

/// Appends the decimal digits of `n` to `out`.
pub fn push_decimal(n: u64, out: &mut Vec<u8>)
    ensures
        final(out)@ == old(out)@ + decimal(n as nat),
    decreases n,
{
    if n >= 10 {
        push_decimal(n / 10, out);
    }
    out.push((48 + n % 10) as u8);
    proof {
        if n >= 10 {
            assert(old(out)@ + decimal(n as nat) =~= old(out)@ + decimal((n / 10) as nat) + seq![
                (48 + n % 10) as u8,
            ]);
        }
    }
}

/// Appends all of `src` to `out`.
pub fn push_all(out: &mut Vec<u8>, src: &[u8])
    ensures
        final(out)@ == old(out)@ + src@,
{
    let ghost start = out@;
    let mut i: usize = 0;
    while i < src.len()
        invariant
            i <= src@.len(),
            out@ == start + src@.take(i as int),
        decreases src@.len() - i,
    {
        out.push(src[i]);
        i = i + 1;
        proof {
            assert(src@.take(i as int) =~= src@.take(i - 1) + seq![src@[i - 1]]);
        }
    }
    proof {
        assert(src@.take(src@.len() as int) =~= src@);
    }
}

/// `binary file matches (found "\0" byte around offset `
pub open spec fn notice_prefix() -> Seq<u8> {
    seq![
        98u8, 105u8, 110u8, 97u8, 114u8, 121u8, 32u8, 102u8, 105u8, 108u8, 101u8, 32u8, 109u8, 97u8, 116u8,
        99u8, 104u8, 101u8, 115u8, 32u8, 40u8, 102u8, 111u8, 117u8, 110u8, 100u8, 32u8, 34u8, 92u8,
        48u8, 34u8, 32u8, 98u8, 121u8, 116u8, 101u8, 32u8, 97u8, 114u8, 111u8, 117u8, 110u8, 100u8, 32u8,
        111u8, 102u8, 102u8, 115u8, 101u8, 116u8, 32u8,
    ]
}

/// The notice for a binary input whose first NUL byte is at `offset`.
pub open spec fn binary_notice(offset: nat) -> Seq<u8> {
    notice_prefix() + decimal(offset) + seq![41u8, 10u8]
}

/// The line that reports a match: `<number>:<content>`.
pub open spec fn match_line(number: nat, content: Seq<u8>) -> Seq<u8> {
    decimal(number) + seq![58u8] + content + seq![10u8]
}

/// The file's header, unless it was printed already.
pub open spec fn header_once(path: Seq<u8>, printed: bool) -> Seq<u8> {
    if printed {
        Seq::empty()
    } else {
        path + seq![10u8]
    }
}

/// What searching one line prints. A NUL-delimited line marks the input as
/// binary: the notice gives the offset of the NUL byte. Otherwise a matching
/// line is printed with its number; a line that does not match prints
/// nothing. Anything printed is preceded by the header the first time.
pub open spec fn line_report(
    path: Seq<u8>,
    printed: bool,
    number: nat,
    content: Seq<u8>,
    delim: Option<LineDelimiter>,
    offset: nat,
    matched: bool,
) -> Seq<u8> {
    if delim == Some(LineDelimiter::NUL) {
        header_once(path, printed) + binary_notice(offset + content.len())
    } else if matched {
        header_once(path, printed) + match_line(number, content)
    } else {
        Seq::empty()
    }
}

/// The search of one file, fed its lines in order.
pub struct FileSearch {
    path: Vec<u8>,
    printed: bool,
    searched: u64,
    finished: bool,
}

impl FileSearch {
    pub closed spec fn path(&self) -> Seq<u8> {
        self.path@
    }

    /// Whether the header was printed.
    pub closed spec fn printed(&self) -> bool {
        self.printed
    }

    /// The number of the next line, counted from 1.
    pub closed spec fn number(&self) -> nat {
        self.searched as nat + 1
    }

    /// Whether the input proved binary: no further line is searched.
    pub closed spec fn finished(&self) -> bool {
        self.finished
    }

    /// The search of the file at `path`, before its first line.
    pub fn new(path: Vec<u8>) -> (r: FileSearch)
        ensures
            r.path() == path@,
            !r.printed(),
            r.number() == 1,
            !r.finished(),
    {
        FileSearch { path, printed: false, searched: 0, finished: false }
    }

    /// Whether the search wants more lines.
    pub fn is_finished(&self) -> (r: bool)
        ensures
            r == self.finished(),
    {
        self.finished
    }

    /// The number of lines searched so far.
    pub fn lines_searched(&self) -> (r: u64)
        ensures
            r + 1 == self.number(),
    {
        self.searched
    }

    /// Searches the next line, which starts at byte `offset` of the input and
    /// matched the pattern or not, and appends to `out` what it prints.
    /// Returns whether further lines are wanted.
    pub fn on_line(
        &mut self,
        content: &[u8],
        delim: Option<LineDelimiter>,
        offset: u64,
        matched: bool,
        out: &mut Vec<u8>,
    ) -> (go_on: bool)
        requires
            !old(self).finished(),
            old(self).number() <= u64::MAX,
            offset + content@.len() <= u64::MAX,
        ensures
            final(out)@ == old(out)@ + line_report(
                old(self).path(),
                old(self).printed(),
                old(self).number(),
                content@,
                delim,
                offset as nat,
                matched,
            ),
            final(self).path() == old(self).path(),
            final(self).number() == old(self).number() + 1,
            final(self).printed() == (old(self).printed() || matched || delim == Some(
                LineDelimiter::NUL,
            )),
            final(self).finished() == (delim == Some(LineDelimiter::NUL)),
            go_on == !final(self).finished(),
    {
        let number = self.searched + 1;
        self.searched = number;
        let binary = delim == Some(LineDelimiter::NUL);
        if !binary && !matched {
            proof {
                assert(out@ =~= old(out)@ + Seq::<u8>::empty());
            }
            return true;
        }
        if !self.printed {
            push_all(out, self.path.as_slice());
            out.push(10u8);
            self.printed = true;
        }
        let ghost after_header = out@;
        proof {
            assert(after_header =~= old(out)@ + header_once(self.path@, old(self).printed));
        }
        if binary {
            let prefix: Vec<u8> = vec![
                98u8, 105u8, 110u8, 97u8, 114u8, 121u8, 32u8, 102u8, 105u8, 108u8, 101u8, 32u8, 109u8,
                97u8, 116u8, 99u8, 104u8, 101u8, 115u8, 32u8, 40u8, 102u8, 111u8, 117u8, 110u8, 100u8,
                32u8, 34u8, 92u8, 48u8, 34u8, 32u8, 98u8, 121u8, 116u8, 101u8, 32u8, 97u8, 114u8,
                111u8, 117u8, 110u8, 100u8, 32u8, 111u8, 102u8, 102u8, 115u8, 101u8, 116u8, 32u8,
            ];
            assert(prefix@ =~= notice_prefix());
            push_all(out, prefix.as_slice());
            push_decimal(offset + content.len() as u64, out);
            out.push(41u8);
            out.push(10u8);
            self.finished = true;
            proof {
                assert(out@ =~= after_header + binary_notice((offset + content@.len()) as nat));
            }
            false
        } else {
            push_decimal(number, out);
            out.push(58u8);
            push_all(out, content);
            out.push(10u8);
            proof {
                assert(out@ =~= after_header + match_line(number as nat, content@));
            }
            true
        }
    }
}

/// Offset of the byte after the given lines, delimiters included.
pub open spec fn records_offset(recs: Seq<LineRecord>) -> nat
    decreases recs.len(),
{
    if recs.len() == 0 {
        0
    } else {
        records_offset(recs.drop_last()) + recs.last().0.len() + delim_width(recs.last().1)
    }
}

proof fn lemma_records_offset_cons(r: LineRecord, rest: Seq<LineRecord>)
    ensures
        records_offset(seq![r] + rest) == r.0.len() + delim_width(r.1) + records_offset(rest),
    decreases rest.len(),
{
    let all = seq![r] + rest;
    if rest.len() == 0 {
        assert(all.drop_last() =~= Seq::<LineRecord>::empty());
        assert(all.last() == r);
        assert(records_offset(all.drop_last()) == 0);
    } else {
        assert(all.drop_last() =~= seq![r] + rest.drop_last());
        assert(all.last() == rest.last());
        lemma_records_offset_cons(r, rest.drop_last());
    }
}

/// When an input proves binary, the offset that the notice gives is that of
/// its first NUL byte: the lines before the last one, with their
/// delimiters, and the content of the last one, end exactly there.
pub proof fn lemma_notice_offset_is_first_nul(s: Seq<u8>)
    requires
        segments(s).len() > 0,
        segments(s).last().1 == Some(LineDelimiter::NUL),
    ensures
        ({
            let segs = segments(s);
            let k = records_offset(segs.drop_last()) + segs.last().0.len();
            &&& k < s.len()
            &&& s[k as int] == 0u8
            &&& forall|j: int| 0 <= j < k ==> #[trigger] s[j] != 0u8
        }),
    decreases s.len(),
{
    lemma_record_len(s);
    lemma_delim_from(s, 0);
    let segs = segments(s);
    let r = first_record(s);
    let p = first_delim(s);
    let len = record_len(s);
    if r.1 == Some(LineDelimiter::NUL) {
        assert(segs == seq![r]);
        assert(segs.drop_last() =~= Seq::<LineRecord>::empty());
        assert(forall|j: int| 0 <= j < p ==> !is_delim(#[trigger] s[j]));
    } else {
        let rest = s.skip(len as int);
        let tail = segments(rest);
        assert(segs == seq![r] + tail);
        assert(tail.len() > 0);
        assert(tail.last() == segs.last());
        lemma_notice_offset_is_first_nul(rest);
        assert(segs.drop_last() =~= seq![r] + tail.drop_last());
        lemma_records_offset_cons(r, tail.drop_last());
        let k2 = records_offset(tail.drop_last()) + tail.last().0.len();
        assert(r.0.len() + delim_width(r.1) == len);
        assert(rest[k2 as int] == s[(len + k2) as int]);
        assert forall|j: int| 0 <= j < len + k2 implies #[trigger] s[j] != 0u8 by {
            if j < p {
                assert(!is_delim(s[j]));
            } else if j >= len {
                assert(s[j] == rest[j - len]);
            }
        }
    }
}

/// Whether searching the given lines, with the given verdicts of the
/// pattern, printed the header.
pub open spec fn header_printed(recs: Seq<LineRecord>, verdicts: Seq<bool>) -> bool
    decreases recs.len(),
{
    if recs.len() == 0 {
        false
    } else {
        header_printed(recs.drop_last(), verdicts.drop_last()) || verdicts.last() || recs.last().1
            == Some(LineDelimiter::NUL)
    }
}

/// What searching a file prints for its lines `recs`, where `verdicts[i]`
/// tells whether the pattern matched line `i`: line `i` carries number
/// `i + 1` and starts at the offset where the lines before it end.
pub open spec fn records_report(path: Seq<u8>, recs: Seq<LineRecord>, verdicts: Seq<bool>) -> Seq<
    u8,
>
    decreases recs.len(),
{
    if recs.len() == 0 {
        Seq::empty()
    } else {
        let prev = recs.drop_last();
        let pv = verdicts.drop_last();
        records_report(path, prev, pv) + line_report(
            path,
            header_printed(prev, pv),
            recs.len(),
            recs.last().0,
            recs.last().1,
            records_offset(prev),
            verdicts.last(),
        )
    }
}

/// Each line that is not NUL-delimited has the pattern's verdict on its
/// content; a NUL-delimited line is not matched.
pub open spec fn verdicts_follow(
    pattern: Seq<char>,
    recs: Seq<LineRecord>,
    verdicts: Seq<bool>,
) -> bool {
    forall|i: int|
        0 <= i < recs.len() && recs[i].1 != Some(LineDelimiter::NUL) ==> #[trigger] verdicts[i]
            == pattern_matches(pattern, recs[i].0)
}

/// The match lines for the lines `recs` that `pattern` matches, each with
/// its number counted from 1, in the order of the lines.
pub open spec fn matching_lines(pattern: Seq<char>, recs: Seq<LineRecord>) -> Seq<u8>
    decreases recs.len(),
{
    if recs.len() == 0 {
        Seq::empty()
    } else {
        matching_lines(pattern, recs.drop_last()) + if pattern_matches(pattern, recs.last().0) {
            match_line(recs.len(), recs.last().0)
        } else {
            Seq::empty()
        }
    }
}

/// Searching a text file prints its header once, when any line matches,
/// followed by `<number>:<content>` for each matching line, numbered from
/// 1 and in ascending order, and nothing else.
pub proof fn lemma_text_report(
    path: Seq<u8>,
    pattern: Seq<char>,
    recs: Seq<LineRecord>,
    verdicts: Seq<bool>,
)
    requires
        verdicts.len() == recs.len(),
        forall|i: int| 0 <= i < recs.len() ==> #[trigger] recs[i].1 != Some(LineDelimiter::NUL),
        verdicts_follow(pattern, recs, verdicts),
    ensures
        header_printed(recs, verdicts) == (matching_lines(pattern, recs).len() > 0),
        records_report(path, recs, verdicts) == (if matching_lines(pattern, recs).len() > 0 {
            path + seq![10u8]
        } else {
            Seq::empty()
        }) + matching_lines(pattern, recs),
    decreases recs.len(),
{
    if recs.len() == 0 {
        assert(Seq::<u8>::empty() + Seq::<u8>::empty() =~= Seq::<u8>::empty());
    } else {
        let prev = recs.drop_last();
        let pv = verdicts.drop_last();
        let n = recs.len() - 1;
        assert forall|i: int| 0 <= i < prev.len() implies #[trigger] prev[i].1 != Some(
            LineDelimiter::NUL,
        ) by {
            assert(prev[i] == recs[i]);
        }
        assert forall|i: int|
            0 <= i < prev.len() && prev[i].1 != Some(LineDelimiter::NUL) implies #[trigger] pv[i]
            == pattern_matches(pattern, prev[i].0) by {
            assert(prev[i] == recs[i]);
            assert(pv[i] == verdicts[i]);
        }
        lemma_text_report(path, pattern, prev, pv);
        assert(recs[n].1 != Some(LineDelimiter::NUL));
        assert(verdicts[n] == pattern_matches(pattern, recs[n].0));
        let ml = matching_lines(pattern, prev);
        let c = recs.last().0;
        let h = path + seq![10u8];
        if verdicts.last() {
            let line = match_line(recs.len(), c);
            assert(line.len() > 0);
            assert(matching_lines(pattern, recs) == ml + line);
            if ml.len() > 0 {
                assert(records_report(path, recs, verdicts) =~= (h + ml) + line);
                assert((h + ml) + line =~= h + (ml + line));
            } else {
                assert(ml =~= Seq::<u8>::empty());
                assert(records_report(path, recs, verdicts) =~= Seq::<u8>::empty() + ml + (h
                    + line));
                assert(ml + line =~= line);
            }
        } else {
            assert(matching_lines(pattern, recs) =~= ml);
            let before = records_report(path, prev, pv);
            assert(records_report(path, recs, verdicts) =~= before + Seq::<u8>::empty());
        }
    }
}

/// The search of one file fed in chunks: the segmenter decides the lines,
/// each decided line is searched at once, and what the search prints is
/// handed back with each call.
pub struct FileScan {
    pattern: Ghost<Seq<char>>,
    lines: Lines,
    search: FileSearch,
    verdicts: Ghost<Seq<bool>>,
    output: Ghost<Seq<u8>>,
}

impl FileScan {
    pub closed spec fn path(&self) -> Seq<u8> {
        self.search.path()
    }

    /// All bytes fed so far.
    pub closed spec fn input(&self) -> Seq<u8> {
        self.lines.input()
    }

    /// All lines searched so far.
    pub closed spec fn records(&self) -> Seq<LineRecord> {
        self.lines.records()
    }

    /// The source of the pattern searched for.
    pub closed spec fn pattern(&self) -> Seq<char> {
        self.pattern@
    }

    /// The pattern's verdict on each line searched.
    pub closed spec fn verdicts(&self) -> Seq<bool> {
        self.verdicts@
    }

    /// All bytes printed so far.
    pub closed spec fn output(&self) -> Seq<u8> {
        self.output@
    }

    pub closed spec fn at_end(&self) -> bool {
        self.lines.at_end()
    }

    /// Whether the input proved binary.
    pub closed spec fn binary(&self) -> bool {
        self.lines.stopped()
    }

    /// The lines produced so far were all searched, and `output` is what
    /// searching them printed.
    closed spec fn consistent(&self) -> bool {
        &&& self.lines.wf()
        &&& self.search.number() == self.lines.records().len() + 1
        &&& self.search.finished() == self.lines.stopped()
        &&& self.verdicts@.len() == self.lines.records().len()
        &&& self.search.printed() == header_printed(self.lines.records(), self.verdicts@)
        &&& self.lines.spec_offset() == records_offset(self.lines.records())
        &&& self.lines.records().len() <= records_offset(self.lines.records())
        &&& self.output@ == records_report(self.search.path(), self.lines.records(), self.verdicts@)
        &&& verdicts_follow(self.pattern@, self.lines.records(), self.verdicts@)
    }

    /// Consistent, and no line that the input decides is left unsearched.
    pub closed spec fn wf(&self) -> bool {
        &&& self.consistent()
        &&& !self.lines.at_end() ==> !decided(self.lines.pending(), false)
            || self.lines.stopped()
    }

    /// The search of the file at `path` for `pattern`, before any input.
    pub fn new(path: Vec<u8>, pattern: &Pattern) -> (r: FileScan)
        ensures
            r.wf(),
            r.path() == path@,
            r.pattern() == pattern.source(),
            r.input() == Seq::<u8>::empty(),
            r.output() == Seq::<u8>::empty(),
            !r.at_end(),
            !r.binary(),
    {
        let lines = Lines::new();
        let search = FileSearch::new(path);
        proof {
            assert(!decided(lines.pending(), false));
        }
        FileScan {
            pattern: Ghost(pattern.source()),
            lines,
            search,
            verdicts: Ghost(Seq::empty()),
            output: Ghost(Seq::empty()),
        }
    }

    /// Whether more input is wanted: not after the end of input, nor once the
    /// input proved binary.
    pub fn wants_input(&self) -> (r: bool)
        requires
            self.wf(),
        ensures
            r == (!self.at_end() && !self.binary()),
    {
        !self.lines.is_at_end() && !self.search.is_finished()
    }

    /// Feeds `chunk` and searches every line it decides, appending to `out`
    /// what that prints. Refused, with nothing changed, when no more input is
    /// wanted or the input length would no longer fit in a `u64`.
    pub fn push(&mut self, pattern: &Pattern, chunk: &[u8], out: &mut Vec<u8>) -> (accepted: bool)
        requires
            old(self).wf(),
            pattern.source() == old(self).pattern(),
        ensures
            final(self).wf(),
            final(self).pattern() == old(self).pattern(),
            final(self).verdicts().len() == final(self).records().len(),
            verdicts_follow(final(self).pattern(), final(self).records(), final(self).verdicts()),
            final(self).output() == records_report(
                final(self).path(),
                final(self).records(),
                final(self).verdicts(),
            ),
            final(self).path() == old(self).path(),
            accepted == (!old(self).at_end() && !old(self).binary() && old(self).input().len()
                + chunk@.len() <= u64::MAX),
            accepted ==> final(self).input() == old(self).input() + chunk@,
            !accepted ==> final(self).input() == old(self).input() && final(out)@ == old(out)@,
            final(self).at_end() == old(self).at_end(),
            final(self).output() == old(self).output() + final(out)@.skip(old(out)@.len() as int),
            final(out)@.take(old(out)@.len() as int) == old(out)@,
    {
        if self.search.is_finished() {
            proof {
                assert(out@.skip(out@.len() as int) =~= Seq::<u8>::empty());
                assert(out@.take(out@.len() as int) =~= out@);
                assert(self.output@ + Seq::<u8>::empty() =~= self.output@);
            }
            return false;
        }
        if !self.lines.feed(chunk) {
            proof {
                assert(out@.skip(out@.len() as int) =~= Seq::<u8>::empty());
                assert(out@.take(out@.len() as int) =~= out@);
                assert(self.output@ + Seq::<u8>::empty() =~= self.output@);
            }
            return false;
        }
        self.drain(pattern, out);
        true
    }

    /// Announces the end of input and searches the lines left. From then
    /// on, the lines searched are all the lines of the input, and the output
    /// is what searching them prints.
    pub fn finish(&mut self, pattern: &Pattern, out: &mut Vec<u8>)
        requires
            old(self).wf(),
            pattern.source() == old(self).pattern(),
        ensures
            final(self).wf(),
            final(self).pattern() == old(self).pattern(),
            verdicts_follow(final(self).pattern(), final(self).records(), final(self).verdicts()),
            final(self).path() == old(self).path(),
            final(self).input() == old(self).input(),
            final(self).at_end(),
            final(self).records() == segments(final(self).input()),
            final(self).verdicts().len() == final(self).records().len(),
            final(self).output() == records_report(
                final(self).path(),
                final(self).records(),
                final(self).verdicts(),
            ),
            final(self).output() == old(self).output() + final(out)@.skip(old(out)@.len() as int),
            final(out)@.take(old(out)@.len() as int) == old(out)@,
    {
        self.lines.finish();
        self.drain(pattern, out);
    }

    /// Searches every line that the buffered input decides.
    fn drain(&mut self, pattern: &Pattern, out: &mut Vec<u8>)
        requires
            old(self).consistent(),
            pattern.source() == old(self).pattern(),
        ensures
            final(self).wf(),
            final(self).pattern() == old(self).pattern(),
            final(self).path() == old(self).path(),
            final(self).input() == old(self).input(),
            final(self).at_end() == old(self).at_end(),
            final(self).output() == old(self).output() + final(out)@.skip(old(out)@.len() as int),
            final(out)@.take(old(out)@.len() as int) == old(out)@,
            final(self).at_end() ==> final(self).records() == segments(final(self).input()),
    {
        let ghost out0 = out@;
        let ghost output0 = self.output@;
        loop
            invariant
                self.consistent(),
                self.lines.input() == old(self).lines.input(),
                self.lines.at_end() == old(self).lines.at_end(),
                self.search.path() == old(self).search.path(),
                self.pattern@ == old(self).pattern@,
                pattern.source() == self.pattern@,
                out0 == old(out)@,
                output0 == old(self).output@,
                out@.len() >= out0.len(),
                self.output@ == output0 + out@.skip(out0.len() as int),
                out@.take(out0.len() as int) == out0,
            decreases self.lines.pending().len(),
        {
            let ghost recs0 = self.lines.records();
            let ghost p = self.lines.pending();
            let ghost before = out@;
            let ghost printed0 = self.search.printed();
            proof {
                self.lines.lemma_offset_bound();
            }
            match self.lines.next_line() {
                LineStep::NeedInput => {
                    return;
                },
                LineStep::End => {
                    return;
                },
                LineStep::Line(content, delim, offset) => {
                    proof {
                        self.lines.lemma_offset_bound();
                        assert(content@.len() + delim_width(delim) == record_len(p));
                    }
                    let matched = if delim == Some(LineDelimiter::NUL) {
                        false
                    } else {
                        pattern.is_match(content.as_slice())
                    };
                    self.search.on_line(content.as_slice(), delim, offset, matched, out);
                    let ghost v0 = self.verdicts@;
                    self.verdicts = Ghost(self.verdicts@.push(matched));
                    self.output = Ghost(self.output@ + out@.skip(before.len() as int));
                    proof {
                        let v = self.verdicts@;
                        let recs = self.lines.records();
                        assert(recs.drop_last() =~= recs0);
                        assert(v.drop_last() =~= v0);
                        assert forall|i: int|
                            0 <= i < recs.len() && recs[i].1 != Some(LineDelimiter::NUL) implies #[trigger] v[i]
                            == pattern_matches(self.pattern@, recs[i].0) by {
                            if i < recs0.len() {
                                assert(recs[i] == recs0[i]);
                                assert(v[i] == v0[i]);
                            }
                        }
                        assert(recs.last() == (content@, delim));
                        assert(out@.skip(before.len() as int) =~= line_report(
                            self.search.path(),
                            printed0,
                            recs0.len() + 1,
                            content@,
                            delim,
                            offset as nat,
                            matched,
                        ));
                        let x = out@.skip(before.len() as int);
                        assert(out@ =~= before + x);
                        assert(out@.take(out0.len() as int) =~= before.take(out0.len() as int));
                        assert(out@.take(out0.len() as int) =~= out0);
                        assert(out@.skip(out0.len() as int) =~= before.skip(out0.len() as int)
                            + x);
                        assert(self.output@ =~= output0 + out@.skip(out0.len() as int));
                    }
                },
            }
        }
    }
}

} // verus!
