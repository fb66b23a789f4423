//! Parsing of N-gram count streams written in the sorted text format:
//! a header line with the number of grams, then one `<gram><TAB><count>`
//! record per line.

use vstd::prelude::*;

use crate::error::LmError;
use crate::record::CountRecord;
use crate::GRAM_COUNT_SEPARATOR;

verus! {

/// The line-feed byte that ends a line.
pub const LINE_FEED: u8 = 10;

/// The index of the first line feed at or after `from`, or the text's length.
pub open spec fn line_end(s: Seq<u8>, from: int) -> int
    decreases s.len() - from,
    when 0 <= from
{
    if from >= s.len() {
        s.len() as int
    } else if s[from] == LINE_FEED {
        from
    } else {
        line_end(s, from + 1)
    }
}

pub proof fn lemma_line_end(s: Seq<u8>, from: int)
    requires
        0 <= from <= s.len(),
    ensures
        from <= line_end(s, from) <= s.len(),
        line_end(s, from) < s.len() ==> s[line_end(s, from)] == LINE_FEED,
        forall|j: int| from <= j < line_end(s, from) ==> s[j] != LINE_FEED,
    decreases s.len() - from,
{
    if from < s.len() && s[from] != LINE_FEED {
        lemma_line_end(s, from + 1);
    }
}

/// A line feed at `i` with none between `from` and `i` pins `line_end`.
pub proof fn lemma_line_end_at(s: Seq<u8>, from: int, i: int)
    requires
        0 <= from <= i <= s.len(),
        forall|j: int| from <= j < i ==> s[j] != LINE_FEED,
        i == s.len() || s[i] == LINE_FEED,
    ensures
        line_end(s, from) == i,
    decreases i - from,
{
    if from < i {
        lemma_line_end_at(s, from + 1, i);
    }
}

/// A decimal digit byte.
pub open spec fn is_digit(b: u8) -> bool {
    48 <= b <= 57
}

pub open spec fn all_digits(s: Seq<u8>) -> bool {
    forall|i: int| 0 <= i < s.len() ==> is_digit(#[trigger] s[i])
}

/// The numeric value of a decimal digit string.
pub open spec fn dec_value(s: Seq<u8>) -> int
    decreases s.len(),
{
    if s.len() == 0 {
        0
    } else {
        dec_value(s.drop_last()) * 10 + (s.last() - 48)
    }
}

pub proof fn lemma_dec_value_nonneg(s: Seq<u8>)
    requires
        all_digits(s),
    ensures
        dec_value(s) >= 0,
    decreases s.len(),
{
    if s.len() > 0 {
        assert(all_digits(s.drop_last()));
        lemma_dec_value_nonneg(s.drop_last());
    }
}

/// Extending a digit string multiplies its value by ten and adds the digit.
pub proof fn lemma_dec_value_step(s: Seq<u8>, i: int)
    requires
        0 <= i < s.len(),
    ensures
        dec_value(s.subrange(0, i + 1)) == dec_value(s.subrange(0, i)) * 10 + (s[i] - 48),
{
    assert(s.subrange(0, i + 1).drop_last() =~= s.subrange(0, i));
    assert(s.subrange(0, i + 1).last() == s[i]);
}

/// The value of a digit string is no less than the value of any prefix.
pub proof fn lemma_dec_value_prefix_le(s: Seq<u8>, i: int)
    requires
        all_digits(s),
        0 <= i <= s.len(),
    ensures
        dec_value(s.subrange(0, i)) <= dec_value(s),
    decreases s.len() - i,
{
    if i == s.len() {
        assert(s.subrange(0, i) =~= s);
    } else {
        lemma_dec_value_step(s, i);
        assert(all_digits(s.subrange(0, i)));
        lemma_dec_value_nonneg(s.subrange(0, i));
        lemma_dec_value_prefix_le(s, i + 1);
    }
}

/// The whitespace bytes trimmed around header fields and record lines.
pub open spec fn is_line_ws(b: u8) -> bool {
    b == 32 || b == 9 || b == 13
}

pub open spec fn trim_front(s: Seq<u8>) -> Seq<u8>
    decreases s.len(),
{
    if s.len() > 0 && is_line_ws(s[0]) {
        trim_front(s.skip(1))
    } else {
        s
    }
}

pub open spec fn trim_back(s: Seq<u8>) -> Seq<u8>
    decreases s.len(),
{
    if s.len() > 0 && is_line_ws(s.last()) {
        trim_back(s.drop_last())
    } else {
        s
    }
}

/// The line with whitespace stripped from both ends.
pub open spec fn trim_ws(s: Seq<u8>) -> Seq<u8> {
    trim_back(trim_front(s))
}

proof fn lemma_trim_front_idx(s: Seq<u8>, k: int)
    requires
        0 <= k <= s.len(),
        forall|j: int| 0 <= j < k ==> is_line_ws(s[j]),
        k == s.len() || !is_line_ws(s[k]),
    ensures
        trim_front(s) == s.subrange(k, s.len() as int),
    decreases k,
{
    if k == 0 {
        assert(s.subrange(0, s.len() as int) =~= s);
    } else {
        let t = s.skip(1);
        lemma_trim_front_idx(t, k - 1);
        assert(t.subrange(k - 1, t.len() as int) =~= s.subrange(k, s.len() as int));
    }
}

proof fn lemma_trim_back_idx(s: Seq<u8>, k: int)
    requires
        0 <= k <= s.len(),
        forall|j: int| k <= j < s.len() ==> is_line_ws(s[j]),
        k == 0 || !is_line_ws(s[k - 1]),
    ensures
        trim_back(s) == s.subrange(0, k),
    decreases s.len() - k,
{
    if k == s.len() {
        assert(s.subrange(0, k) =~= s);
    } else {
        let t = s.drop_last();
        lemma_trim_back_idx(t, k);
        assert(t.subrange(0, k) =~= s.subrange(0, k));
    }
}

/// The first tab byte of a line, if any.
pub open spec fn first_tab_idx(s: Seq<u8>) -> Option<int>
    decreases s.len(),
{
    if s.len() == 0 {
        None
    } else if s[0] == GRAM_COUNT_SEPARATOR {
        Some(0int)
    } else {
        match first_tab_idx(s.skip(1)) {
            Some(i) => Some(i + 1),
            None => None,
        }
    }
}

pub proof fn lemma_first_tab_idx(s: Seq<u8>)
    ensures
        match first_tab_idx(s) {
            Some(i) => 0 <= i < s.len() && s[i] == GRAM_COUNT_SEPARATOR && forall|j: int|
                0 <= j < i ==> s[j] != GRAM_COUNT_SEPARATOR,
            None => forall|j: int| 0 <= j < s.len() ==> s[j] != GRAM_COUNT_SEPARATOR,
        },
    decreases s.len(),
{
    if s.len() > 0 && s[0] != GRAM_COUNT_SEPARATOR {
        lemma_first_tab_idx(s.skip(1));
        match first_tab_idx(s.skip(1)) {
            Some(i) => {
                assert(s[i + 1] == s.skip(1)[i]);
                assert forall|j: int| 0 <= j < i + 1 implies s[j] != GRAM_COUNT_SEPARATOR by {
                    if j > 0 {
                        assert(s.skip(1)[j - 1] != GRAM_COUNT_SEPARATOR);
                    }
                }
            },
            None => {
                assert forall|j: int| 0 <= j < s.len() implies s[j] != GRAM_COUNT_SEPARATOR by {
                    if j > 0 {
                        assert(s.skip(1)[j - 1] != GRAM_COUNT_SEPARATOR);
                    }
                }
            },
        }
    }
}

/// The number of tab bytes in a line.
pub open spec fn count_tabs(s: Seq<u8>) -> int
    decreases s.len(),
{
    if s.len() == 0 {
        0
    } else {
        count_tabs(s.drop_last()) + if s.last() == GRAM_COUNT_SEPARATOR {
            1int
        } else {
            0int
        }
    }
}

/// What parsing one record line yields: the gram bytes and the count, or the
/// error. A line must hold exactly one tab, and the part after it must be a
/// decimal count that fits the machine.
pub open spec fn parse_count_line(line: Seq<u8>) -> Result<(Seq<u8>, int), LmError> {
    let t = trim_back(line);
    match first_tab_idx(t) {
        Some(ti) => {
            if count_tabs(t) != 1 {
                Err(LmError::InvalidLine)
            } else {
                let g = t.subrange(0, ti);
                let c = t.subrange(ti + 1, t.len() as int);
                if c.len() > 0 && all_digits(c) && dec_value(c) <= usize::MAX as int {
                    Ok((g, dec_value(c)))
                } else {
                    Err(LmError::InvalidCount)
                }
            }
        },
        None => Err(LmError::InvalidLine),
    }
}

/// The parses of `n` record lines starting at `pos`: the gram-and-count
/// pairs in order together with the cursor after the last line, or the
/// first line's error.
pub open spec fn parse_records(text: Seq<u8>, pos: int, n: int) -> Result<
    (Seq<(Seq<u8>, int)>, int),
    LmError,
>
    decreases n,
{
    if n <= 0 {
        Ok((Seq::empty(), pos))
    } else {
        let e = line_end(text, pos);
        match parse_count_line(text.subrange(pos, e)) {
            Ok(gc) => match parse_records(text, GramsParser::next_pos(text, e), n - 1) {
                Ok((rest, endp)) => Ok((seq![gc] + rest, endp)),
                Err(er) => Err(er),
            },
            Err(er) => Err(er),
        }
    }
}

/// Scans forward for the end of the current line.
fn find_line_end(text: &[u8], from: usize) -> (e: usize)
    requires
        from <= text@.len(),
    ensures
        e == line_end(text@, from as int),
        from <= e <= text@.len(),
{
    let n = text.len();
    let mut i: usize = from;
    while i < n
        invariant
            from <= i <= n,
            n == text@.len(),
            forall|j: int| from <= j < i ==> text@[j] != LINE_FEED,
        decreases n - i,
    {
        if *vstd::slice::slice_index_get(text, i) == LINE_FEED {
            proof {
                lemma_line_end_at(text@, from as int, i as int);
            }
            return i;
        }
        i += 1;
    }
    proof {
        lemma_line_end_at(text@, from as int, n as int);
    }
    n
}

/// Strips the surrounding whitespace of `text[from..to]`, returning the
/// trimmed bounds.
fn trim_range(text: &[u8], from: usize, to: usize) -> (r: (usize, usize))
    requires
        from <= to <= text@.len(),
    ensures
        from <= r.0 <= r.1 <= to,
        text@.subrange(r.0 as int, r.1 as int) == trim_ws(text@.subrange(from as int, to as int)),
{
    let mut a: usize = from;
    while a < to && is_ws_byte(*vstd::slice::slice_index_get(text, a))
        invariant
            from <= a <= to <= text@.len(),
            forall|j: int| from <= j < a ==> is_line_ws(text@[j]),
        decreases to - a,
    {
        a += 1;
    }
    let mut b: usize = to;
    while b > a && is_ws_byte(*vstd::slice::slice_index_get(text, b - 1))
        invariant
            from <= a <= b <= to <= text@.len(),
            forall|j: int| from <= j < a ==> is_line_ws(text@[j]),
            forall|j: int| b <= j < to ==> is_line_ws(text@[j]),
        decreases b,
    {
        b -= 1;
    }
    proof {
        let s = text@.subrange(from as int, to as int);
        lemma_trim_front_idx(s, a - from);
        let t = s.subrange(a - from, s.len() as int);
        lemma_trim_back_idx(t, b - a);
        assert(t.subrange(0, b - a) =~= text@.subrange(a as int, b as int));
    }
    (a, b)
}

fn is_ws_byte(b: u8) -> (r: bool)
    ensures
        r == is_line_ws(b),
{
    b == 32 || b == 9 || b == 13
}

/// Parses a trimmed decimal field, rejecting anything that is not a digit
/// string whose value fits the machine.
fn parse_decimal(text: &[u8], from: usize, to: usize) -> (r: Option<usize>)
    requires
        from <= to <= text@.len(),
    ensures
        ({
            let s = text@.subrange(from as int, to as int);
            &&& r is Some <==> (s.len() > 0 && all_digits(s) && dec_value(s) <= usize::MAX as int)
            &&& r is Some ==> r.unwrap() as int == dec_value(s)
        }),
{
    let ghost s = text@.subrange(from as int, to as int);
    if from == to {
        return None;
    }
    let mut acc: usize = 0;
    let mut i: usize = from;
    while i < to
        invariant
            from <= i <= to <= text@.len(),
            s == text@.subrange(from as int, to as int),
            all_digits(s.subrange(0, i - from)),
            acc as int == dec_value(s.subrange(0, i - from)),
        decreases to - i,
    {
        let b = *vstd::slice::slice_index_get(text, i);
        proof {
            assert(s[i - from] == b);
        }
        if !(48 <= b && b <= 57) {
            proof {
                assert(!is_digit(s[i - from]));
            }
            return None;
        }
        let d = (b - 48) as usize;
        let next = match acc.checked_mul(10) {
            Some(m) => m.checked_add(d),
            None => None,
        };
        proof {
            lemma_dec_value_step(s, i - from);
            assert(all_digits(s.subrange(0, i - from + 1)));
        }
        match next {
            Some(v) => {
                acc = v;
            },
            None => {
                proof {
                    if all_digits(s) && dec_value(s) <= usize::MAX as int {
                        lemma_dec_value_prefix_le(s, i - from + 1);
                    }
                }
                return None;
            },
        }
        i += 1;
    }
    proof {
        assert(s.subrange(0, to - from) =~= s);
    }
    Some(acc)
}

/// Streaming parser for one order's gram-count text.
pub struct GramsParser<'a> {
    text: &'a [u8],
    pos: usize,
    num_grams: usize,
    num_parsed: usize,
}

impl<'a> GramsParser<'a> {
    /// The whole input text.
    pub closed spec fn text_view(&self) -> Seq<u8> {
        self.text@
    }

    /// The cursor: where the next record line starts.
    pub closed spec fn spec_pos(&self) -> int {
        self.pos as int
    }

    /// The gram count that the header declared.
    pub closed spec fn spec_num_grams(&self) -> int {
        self.num_grams as int
    }

    /// How many records have been handed out so far.
    pub closed spec fn spec_num_parsed(&self) -> int {
        self.num_parsed as int
    }

    pub open spec fn wf(&self) -> bool {
        &&& 0 <= self.spec_pos() <= self.text_view().len()
        &&& 0 <= self.spec_num_parsed() <= self.spec_num_grams()
    }

    /// Whether a header line holds a valid gram count.
    pub open spec fn valid_header(text: Seq<u8>) -> bool {
        let h = trim_ws(text.subrange(0, line_end(text, 0)));
        h.len() > 0 && all_digits(h) && dec_value(h) <= usize::MAX as int
    }

    /// The declared gram count of a text with a valid header.
    pub open spec fn header_value(text: Seq<u8>) -> int {
        dec_value(trim_ws(text.subrange(0, line_end(text, 0))))
    }

    /// The cursor right after the line that ends at `e`.
    pub open spec fn next_pos(text: Seq<u8>, e: int) -> int {
        if e < text.len() {
            e + 1
        } else {
            e
        }
    }

    /// Creates a [`GramsParser`] on a gram-count text, reading its header.
    pub fn new(text: &'a [u8]) -> (r: Result<Self, LmError>)
        ensures
            match r {
                Ok(p) => {
                    &&& Self::valid_header(text@)
                    &&& p.wf()
                    &&& p.text_view() == text@
                    &&& p.spec_num_grams() == Self::header_value(text@)
                    &&& p.spec_num_parsed() == 0
                    &&& p.spec_pos() == Self::next_pos(text@, line_end(text@, 0))
                },
                Err(e) => e == LmError::InvalidHeader && !Self::valid_header(text@),
            },
    {
        let e = find_line_end(text, 0);
        let (a, b) = trim_range(text, 0, e);
        match parse_decimal(text, a, b) {
            Some(num_grams) => {
                let pos = if e < text.len() {
                    e + 1
                } else {
                    e
                };
                Ok(Self { text, pos, num_grams, num_parsed: 0 })
            },
            None => Err(LmError::InvalidHeader),
        }
    }

    /// Gets the number of grams the header declared.
    pub fn num_grams(&self) -> (r: usize)
        ensures
            r as int == self.spec_num_grams(),
    {
        self.num_grams
    }

    /// What the next call to `next_count_record` parses, as a spec value.
    pub open spec fn spec_line(&self) -> Seq<u8> {
        self.text_view().subrange(
            self.spec_pos(),
            line_end(self.text_view(), self.spec_pos()),
        )
    }

    /// Parses the next record, or reports that all declared records are done.
    pub fn next_count_record(&mut self) -> (r: Option<Result<CountRecord, LmError>>)
        requires
            old(self).wf(),
        ensures
            final(self).wf(),
            final(self).text_view() == old(self).text_view(),
            final(self).spec_num_grams() == old(self).spec_num_grams(),
            old(self).spec_num_parsed() == old(self).spec_num_grams() ==> {
                &&& r is None
                &&& *final(self) == *old(self)
            },
            old(self).spec_num_parsed() < old(self).spec_num_grams() ==> {
                let text = old(self).text_view();
                let e = line_end(text, old(self).spec_pos());
                &&& final(self).spec_num_parsed() == old(self).spec_num_parsed() + 1
                &&& final(self).spec_pos() == Self::next_pos(text, e)
                &&& match parse_count_line(old(self).spec_line()) {
                    Ok(gc) => r matches Some(Ok(rec)) && rec@ == gc,
                    Err(er) => r == Some(Err::<CountRecord, LmError>(er)),
                }
            },
    {
        if self.num_parsed == self.num_grams {
            return None;
        }
        self.num_parsed += 1;
        let e = find_line_end(self.text, self.pos);
        let start = self.pos;
        self.pos = if e < self.text.len() {
            e + 1
        } else {
            e
        };
        // Strip trailing whitespace of the line, leaving its front intact.
        let mut b: usize = e;
        while b > start && is_ws_byte(*vstd::slice::slice_index_get(self.text, b - 1))
            invariant
                start <= b <= e <= self.text@.len(),
                forall|j: int| b <= j < e ==> is_line_ws(self.text@[j]),
            decreases b,
        {
            b -= 1;
        }
        let ghost line = self.text@.subrange(start as int, e as int);
        proof {
            lemma_trim_back_idx(line, b - start);
            assert(line.subrange(0, b - start) =~= self.text@.subrange(start as int, b as int));
        }
        // Find the single tab that separates the gram from its count.
        let ghost t = trim_back(line);
        let mut ti: usize = start;
        while ti < b && *vstd::slice::slice_index_get(self.text, ti) != GRAM_COUNT_SEPARATOR
            invariant
                start <= ti <= b <= self.text@.len(),
                forall|j: int| start <= j < ti ==> self.text@[j] != GRAM_COUNT_SEPARATOR,
            decreases b - ti,
        {
            ti += 1;
        }
        if ti == b {
            proof {
                lemma_first_tab_idx(t);
                if t.len() > 0 && first_tab_idx(t) is Some {
                    let i = first_tab_idx(t).unwrap();
                    assert(t[i] == self.text@[start + i]);
                }
            }
            return Some(Err(LmError::InvalidLine));
        }
        proof {
            lemma_first_tab_idx(t);
            assert(t[ti - start] == self.text@[ti as int]);
            match first_tab_idx(t) {
                Some(i) => {
                    assert(t[i] == self.text@[start + i]);
                    assert(i >= ti - start);
                    assert(i <= ti - start);
                },
                None => {
                    assert(t[ti - start] != GRAM_COUNT_SEPARATOR);
                },
            }
        }
        // Any second tab makes the line invalid.
        let mut tj: usize = ti + 1;
        while tj < b && *vstd::slice::slice_index_get(self.text, tj) != GRAM_COUNT_SEPARATOR
            invariant
                start <= ti < tj <= b <= self.text@.len(),
                forall|j: int| ti < j < tj ==> self.text@[j] != GRAM_COUNT_SEPARATOR,
            decreases b - tj,
        {
            tj += 1;
        }
        proof {
            lemma_count_tabs_single(t, ti - start);
            if tj < b {
                assert(t[tj - start] == self.text@[tj as int]);
            } else {
                assert forall|j: int| 0 <= j < t.len() && j != ti - start implies t[j]
                    != GRAM_COUNT_SEPARATOR by {
                    assert(t[j] == self.text@[start + j]);
                }
            }
        }
        if tj < b {
            return Some(Err(LmError::InvalidLine));
        }
        match parse_decimal(self.text, ti + 1, b) {
            Some(count) => {
                let gram = vstd::slice::slice_to_vec(
                    vstd::slice::slice_subrange(self.text, start, ti),
                );
                proof {
                    assert(t.subrange(0, ti - start) =~= self.text@.subrange(
                        start as int,
                        ti as int,
                    ));
                    assert(t.subrange(ti - start + 1, t.len() as int) =~= self.text@.subrange(
                        ti + 1,
                        b as int,
                    ));
                }
                Some(Ok(CountRecord::from_bytes(gram, count)))
            },
            None => {
                proof {
                    assert(t.subrange(ti - start + 1, t.len() as int) =~= self.text@.subrange(
                        ti + 1,
                        b as int,
                    ));
                }
                Some(Err(LmError::InvalidCount))
            },
        }
    }

    /// Whether the stream is cleanly exhausted: every declared record was
    /// handed out and only line feeds remain.
    pub fn at_clean_end(&self) -> (r: bool)
        requires
            self.wf(),
        ensures
            r <==> (self.spec_num_parsed() == self.spec_num_grams() && forall|j: int|
                self.spec_pos() <= j < self.text_view().len() ==> (self.text_view()[j] == LINE_FEED
                    || is_line_ws(#[trigger] self.text_view()[j]))),
    {
        if self.num_parsed != self.num_grams {
            return false;
        }
        let n = self.text.len();
        let mut i: usize = self.pos;
        while i < n
            invariant
                self.spec_pos() <= i <= n,
                n == self.text@.len(),
                forall|j: int| self.spec_pos() <= j < i ==> (self.text@[j] == LINE_FEED
                    || is_line_ws(#[trigger] self.text@[j])),
            decreases n - i,
        {
            let c = *vstd::slice::slice_index_get(self.text, i);
            if c != LINE_FEED && !is_ws_byte(c) {
                proof {
                    assert(self.text_view()[i as int] != LINE_FEED && !is_line_ws(
                        self.text_view()[i as int],
                    ));
                }
                return false;
            }
            i += 1;
        }
        true
    }
}

/// One tab with no other pins `count_tabs` to one; a second tab disproves it.
proof fn lemma_count_tabs_single(t: Seq<u8>, i: int)
    requires
        0 <= i < t.len(),
        t[i] == GRAM_COUNT_SEPARATOR,
    ensures
        (forall|j: int| 0 <= j < t.len() && j != i ==> t[j] != GRAM_COUNT_SEPARATOR) ==> count_tabs(
            t,
        ) == 1,
        (exists|j: int| 0 <= j < t.len() && j != i && t[j] == GRAM_COUNT_SEPARATOR) ==> count_tabs(
            t,
        ) != 1,
{
    lemma_count_tabs_ge(t, i);
    if forall|j: int| 0 <= j < t.len() && j != i ==> t[j] != GRAM_COUNT_SEPARATOR {
        lemma_count_tabs_exact(t, i);
    }
    if exists|j: int| 0 <= j < t.len() && j != i && t[j] == GRAM_COUNT_SEPARATOR {
        let j = choose|j: int| 0 <= j < t.len() && j != i && t[j] == GRAM_COUNT_SEPARATOR;
        lemma_count_tabs_two(t, if i < j {
            i
        } else {
            j
        }, if i < j {
            j
        } else {
            i
        });
    }
}

proof fn lemma_count_tabs_ge(t: Seq<u8>, i: int)
    requires
        0 <= i < t.len(),
        t[i] == GRAM_COUNT_SEPARATOR,
    ensures
        count_tabs(t) >= 1,
    decreases t.len(),
{
    if i < t.len() - 1 {
        lemma_count_tabs_ge(t.drop_last(), i);
    } else {
        lemma_count_tabs_nonneg(t.drop_last());
    }
}

proof fn lemma_count_tabs_nonneg(t: Seq<u8>)
    ensures
        count_tabs(t) >= 0,
    decreases t.len(),
{
    if t.len() > 0 {
        lemma_count_tabs_nonneg(t.drop_last());
    }
}

proof fn lemma_count_tabs_exact(t: Seq<u8>, i: int)
    requires
        0 <= i < t.len(),
        t[i] == GRAM_COUNT_SEPARATOR,
        forall|j: int| 0 <= j < t.len() && j != i ==> t[j] != GRAM_COUNT_SEPARATOR,
    ensures
        count_tabs(t) == 1,
    decreases t.len(),
{
    if i < t.len() - 1 {
        lemma_count_tabs_exact(t.drop_last(), i);
    } else {
        lemma_count_tabs_none(t.drop_last());
    }
}

proof fn lemma_count_tabs_none(t: Seq<u8>)
    requires
        forall|j: int| 0 <= j < t.len() ==> t[j] != GRAM_COUNT_SEPARATOR,
    ensures
        count_tabs(t) == 0,
    decreases t.len(),
{
    if t.len() > 0 {
        lemma_count_tabs_none(t.drop_last());
    }
}

proof fn lemma_count_tabs_two(t: Seq<u8>, i: int, j: int)
    requires
        0 <= i < j < t.len(),
        t[i] == GRAM_COUNT_SEPARATOR,
        t[j] == GRAM_COUNT_SEPARATOR,
    ensures
        count_tabs(t) >= 2,
    decreases t.len(),
{
    if j < t.len() - 1 {
        lemma_count_tabs_two(t.drop_last(), i, j);
    } else {
        lemma_count_tabs_ge(t.drop_last(), i);
    }
}

} // verus!
