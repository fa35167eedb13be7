//! The line-at-a-time state machine that turns raw trace text into stack samples.
use vstd::prelude::*;
use crate::text::{
    after_first_field, chars_of, first_field, parse_number, parse_u64, skip_word, skip_ws,
    trim, trim_bounds,
};

verus! {

/// Why a trace stream cannot be read on.
#[derive(PartialEq, Eq, Structural, Clone, Copy, Debug)]
pub enum TraceError {
    /// A record header lacks its timestamp or thread id, or one of them is not a
    /// non-negative integer.
    MalformedHeader,
    /// A body line came while no record was open.
    BodyWithoutHeader,
}

/// One reconstructed record: a thread's call chain at a timestamp, root first.
pub struct StackSample {
    pub timestamp: u64,
    pub thread_id: u64,
    pub chain: Vec<String>,
}

impl View for StackSample {
    type V = (u64, u64, Seq<Seq<char>>);

    open spec fn view(&self) -> (u64, u64, Seq<Seq<char>>) {
        (self.timestamp, self.thread_id, self.chain.deep_view())
    }
}

pub open spec fn sample_opt_view(o: Option<StackSample>) -> Option<(u64, u64, Seq<Seq<char>>)> {
    match o {
        None => None,
        Some(s) => Some(s@),
    }
}

/// The header of a record: its first field is the timestamp, its second the
/// thread id; anything after them is not read.
pub open spec fn header_of(line: Seq<char>) -> Option<(u64, u64)> {
    match (parse_u64(first_field(line)), parse_u64(first_field(after_first_field(line)))) {
        (Some(t), Some(d)) => Some((t, d)),
        _ => None,
    }
}

/// A diagnostic line of the tracer, which the parser skips.
pub open spec fn is_diagnostic(line: Seq<char>) -> bool {
    (line.len() >= 5 && line.take(5) == seq!['E', 'r', 'r', 'o', 'r']) || (line.len() >= 9
        && line.take(9) == seq!['A', 't', 't', 'a', 'c', 'h', 'i', 'n', 'g'])
}

/// The sample that the open record yields when it closes: none when no record
/// is open or it has no frames.
pub open spec fn flushed(st: (Option<(u64, u64)>, Seq<Seq<char>>)) -> Option<
    (u64, u64, Seq<Seq<char>>),
> {
    match st.0 {
        Some(h) => if st.1.len() > 0 {
            Some((h.0, h.1, st.1))
        } else {
            None
        },
        None => None,
    }
}

/// One line of input: the parser's next state and the sample it yields, if any.
pub open spec fn step(st: (Option<(u64, u64)>, Seq<Seq<char>>), line: Seq<char>) -> Result<
    ((Option<(u64, u64)>, Seq<Seq<char>>), Option<(u64, u64, Seq<Seq<char>>)>),
    TraceError,
> {
    if is_diagnostic(line) {
        Ok((st, None))
    } else if line.len() == 0 {
        Ok(((None, Seq::empty()), flushed(st)))
    } else if line[0] != ' ' {
        match header_of(line) {
            Some(h) => Ok(((Some(h), Seq::empty()), flushed(st))),
            None => Err(TraceError::MalformedHeader),
        }
    } else if st.0 is None {
        Err(TraceError::BodyWithoutHeader)
    } else {
        Ok(((st.0, st.1.push(trim(line))), None))
    }
}

/// Lines fed one after the other: the final state and every sample yielded, in
/// order; the first error ends the run.
pub open spec fn run(st: (Option<(u64, u64)>, Seq<Seq<char>>), lines: Seq<Seq<char>>) -> Result<
    ((Option<(u64, u64)>, Seq<Seq<char>>), Seq<(u64, u64, Seq<Seq<char>>)>),
    TraceError,
>
    decreases lines.len(),
{
    if lines.len() == 0 {
        Ok((st, Seq::empty()))
    } else {
        match run(st, lines.drop_last()) {
            Err(e) => Err(e),
            Ok(r) => match step(r.0, lines.last()) {
                Err(e) => Err(e),
                Ok(n) => Ok(
                    (
                        n.0,
                        match n.1 {
                            Some(s) => r.1.push(s),
                            None => r.1,
                        },
                    ),
                ),
            },
        }
    }
}

/// Reads the header fields of a line.
pub fn parse_header(line: &Vec<char>) -> (r: Option<(u64, u64)>)
    ensures
        r == header_of(line@),
{
    let a = skip_ws(line, 0);
    let b = skip_word(line, a);
    let c = skip_ws(line, b);
    let d = skip_word(line, c);
    assert(line@.skip(0) =~= line@);
    assert(line@.subrange(a as int, b as int) =~= first_field(line@));
    assert(line@.skip(b as int) =~= after_first_field(line@));
    assert(line@.subrange(c as int, d as int) =~= first_field(after_first_field(line@))) by {
        let t = after_first_field(line@);
        assert(line@.skip(c as int) =~= t.skip(c - b));
        assert(line@.skip(b as int).skip(c - b) =~= line@.skip(c as int));
    }
    let t = parse_number(line, a, b);
    let tid = parse_number(line, c, d);
    match (t, tid) {
        (Some(t), Some(tid)) => Some((t, tid)),
        _ => None,
    }
}

fn is_diagnostic_line(line: &Vec<char>) -> (r: bool)
    ensures
        r == is_diagnostic(line@),
{
    let n = line.len();
    let e = n >= 5 && line[0] == 'E' && line[1] == 'r' && line[2] == 'r' && line[3] == 'o'
        && line[4] == 'r';
    let a = n >= 9 && line[0] == 'A' && line[1] == 't' && line[2] == 't' && line[3] == 'a'
        && line[4] == 'c' && line[5] == 'h' && line[6] == 'i' && line[7] == 'n' && line[8] == 'g';
    proof {
        if n >= 5 {
            if line@.take(5) == seq!['E', 'r', 'r', 'o', 'r'] {
                assert(line@[0] == line@.take(5)[0]);
                assert(line@[1] == line@.take(5)[1]);
                assert(line@[2] == line@.take(5)[2]);
                assert(line@[3] == line@.take(5)[3]);
                assert(line@[4] == line@.take(5)[4]);
            }
            if e {
                assert(line@.take(5) =~= seq!['E', 'r', 'r', 'o', 'r']);
            }
        }
        if n >= 9 {
            let p = seq!['A', 't', 't', 'a', 'c', 'h', 'i', 'n', 'g'];
            if line@.take(9) == p {
                assert forall|i: int| 0 <= i < 9 implies line@[i] == p[i] by {
                    assert(line@[i] == line@.take(9)[i]);
                }
            }
            if a {
                assert(line@.take(9) =~= p);
            }
        }
    }
    e || a
}

/// The parser: the header of the open record, if any, and its frames so far.
pub struct TraceParser {
    pending: Option<(u64, u64)>,
    chain: Vec<String>,
}

impl View for TraceParser {
    type V = (Option<(u64, u64)>, Seq<Seq<char>>);

    closed spec fn view(&self) -> (Option<(u64, u64)>, Seq<Seq<char>>) {
        (self.pending, self.chain.deep_view())
    }
}

impl TraceParser {
    /// A parser with no open record.
    pub fn new() -> (r: TraceParser)
        ensures
            r@ == (None::<(u64, u64)>, Seq::<Seq<char>>::empty()),
    {
        let r = TraceParser { pending: None, chain: Vec::new() };
        assert(r.chain.deep_view() =~= Seq::<Seq<char>>::empty());
        r
    }

    /// Closes the open record: yields its sample when it has frames, and leaves
    /// no record open.
    pub fn finish(&mut self) -> (r: Option<StackSample>)
        ensures
            final(self)@ == (None::<(u64, u64)>, Seq::<Seq<char>>::empty()),
            sample_opt_view(r) == flushed(old(self)@),
    {
        let mut chain: Vec<String> = Vec::new();
        std::mem::swap(&mut self.chain, &mut chain);
        let pending = self.pending;
        self.pending = None;
        assert(self.chain.deep_view() =~= Seq::<Seq<char>>::empty());
        match pending {
            Some(h) => {
                if chain.len() > 0 {
                    Some(StackSample { timestamp: h.0, thread_id: h.1, chain })
                } else {
                    None
                }
            },
            None => None,
        }
    }

    /// Feeds one line of trace text.
    pub fn feed_line(&mut self, line: &str) -> (r: Result<Option<StackSample>, TraceError>)
        ensures
            match step(old(self)@, line@) {
                Ok(n) => r matches Ok(o) && final(self)@ == n.0 && sample_opt_view(o) == n.1,
                Err(e) => r matches Err(e2) && e2 == e,
            },
    {
        let cs = chars_of(line);
        if is_diagnostic_line(&cs) {
            return Ok(None);
        }
        if cs.len() == 0 || cs[0] != ' ' {
            if cs.len() == 0 {
                let s = self.finish();
                return Ok(s);
            }
            match parse_header(&cs) {
                Some(h) => {
                    let s = self.finish();
                    self.pending = Some(h);
                    Ok(s)
                },
                None => Err(TraceError::MalformedHeader),
            }
        } else {
            if self.pending.is_none() {
                return Err(TraceError::BodyWithoutHeader);
            }
            let (a, b) = trim_bounds(&cs);
            let frame = line.substring_char(a, b).to_owned();
            let ghost c0 = self.chain.deep_view();
            self.chain.push(frame);
            assert(self.chain.deep_view() =~= c0.push(trim(line@)));
            Ok(None)
        }
    }
}

/// The frames that body lines stand for: each line trimmed, in order.
pub open spec fn trimmed_frames(body: Seq<Seq<char>>) -> Seq<Seq<char>> {
    body.map_values(|l: Seq<char>| trim(l))
}

/// A header line: not a diagnostic, not starting with a space, with both fields.
pub open spec fn is_header_line(line: Seq<char>) -> bool {
    line.len() > 0 && line[0] != ' ' && !is_diagnostic(line) && header_of(line) is Some
}

/// A body line: it starts with a space.
pub open spec fn is_body_line(line: Seq<char>) -> bool {
    line.len() > 0 && line[0] == ' '
}

pub proof fn lemma_body_not_diagnostic(line: Seq<char>)
    requires
        is_body_line(line),
    ensures
        !is_diagnostic(line),
{
    if line.len() >= 5 {
        assert(line.take(5)[0] == ' ');
    }
    if line.len() >= 9 {
        assert(line.take(9)[0] == ' ');
    }
}

/// After a header and some body lines, the record is open with those frames and
/// nothing has been yielded.
pub proof fn lemma_open_record(header: Seq<char>, body: Seq<Seq<char>>, k: int)
    requires
        is_header_line(header),
        0 <= k <= body.len(),
        forall|i: int| 0 <= i < body.len() ==> is_body_line(#[trigger] body[i]),
    ensures
        run((None, Seq::empty()), seq![header] + body.take(k)) == Ok::<
            ((Option<(u64, u64)>, Seq<Seq<char>>), Seq<(u64, u64, Seq<Seq<char>>)>),
            TraceError,
        >(((header_of(header), trimmed_frames(body.take(k))), Seq::empty())),
    decreases k,
{
    let st0: (Option<(u64, u64)>, Seq<Seq<char>>) = (None, Seq::empty());
    if k == 0 {
        let lines = seq![header] + body.take(0);
        assert(lines =~= seq![header]);
        assert(lines.drop_last() =~= Seq::<Seq<char>>::empty());
        assert(run(st0, Seq::<Seq<char>>::empty()) == Ok::<
            ((Option<(u64, u64)>, Seq<Seq<char>>), Seq<(u64, u64, Seq<Seq<char>>)>),
            TraceError,
        >((st0, Seq::empty())));
        assert(step(st0, header) == Ok::<
            ((Option<(u64, u64)>, Seq<Seq<char>>), Option<(u64, u64, Seq<Seq<char>>)>),
            TraceError,
        >(((header_of(header), Seq::empty()), None)));
        assert(trimmed_frames(body.take(0)) =~= Seq::<Seq<char>>::empty());
    } else {
        lemma_open_record(header, body, k - 1);
        let lines = seq![header] + body.take(k);
        assert(lines.drop_last() =~= seq![header] + body.take(k - 1));
        assert(lines.last() == body[k - 1]);
        lemma_body_not_diagnostic(body[k - 1]);
        assert(trimmed_frames(body.take(k)) =~= trimmed_frames(body.take(k - 1)).push(
            trim(body[k - 1]),
        ));
    }
}

/// A record read from the start: its header, its body lines, then a line that
/// closes it (an empty line or the next header). It yields exactly one sample,
/// whose chain is the body lines in order, each trimmed, when it has body lines,
/// and no sample when it has none.
pub proof fn lemma_record_round_trip(header: Seq<char>, body: Seq<Seq<char>>, close: Seq<char>)
    requires
        is_header_line(header),
        forall|i: int| 0 <= i < body.len() ==> is_body_line(#[trigger] body[i]),
        close.len() == 0 || is_header_line(close),
    ensures
        run((None, Seq::empty()), seq![header] + body + seq![close]) matches Ok(r) && r.1 == if body.len()
            > 0 {
            seq![
                (header_of(header).unwrap().0, header_of(header).unwrap().1, trimmed_frames(body)),
            ]
        } else {
            Seq::empty()
        },
{
    lemma_open_record(header, body, body.len() as int);
    assert(body.take(body.len() as int) =~= body);
    let lines = seq![header] + body + seq![close];
    assert(lines.drop_last() =~= seq![header] + body);
    assert(lines.last() == close);
    if close.len() == 0 {
        assert(!is_diagnostic(close));
    }
    if body.len() > 0 {
        assert(trimmed_frames(body).len() > 0);
        assert(Seq::<(u64, u64, Seq<Seq<char>>)>::empty().push(
            (header_of(header).unwrap().0, header_of(header).unwrap().1, trimmed_frames(body)),
        ) =~= seq![
            (header_of(header).unwrap().0, header_of(header).unwrap().1, trimmed_frames(body)),
        ]);
    } else {
        assert(trimmed_frames(body) =~= Seq::<Seq<char>>::empty());
    }
}

} // verus!
