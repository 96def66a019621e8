//! The reader drivers: format-directed consumption of non-data leaves over
//! a line buffer, and list-directed parsing of whitespace- or
//! comma-separated fields.

use vstd::prelude::*;
use crate::format::{FormatNode, FNode, is_interior, is_data_leaf};
use crate::iter::{FormatEvalIter, leaves_of, lemma_walk_yields_leaves};
use crate::types::FortranTag;
use crate::scan::{
    skip_ws, field_end, line_end, term_pos, exec_is_format_ws, strip_ws, sp_signed_int,
    digits_end, digits_val, lemma_skip_ws_bounds, lemma_field_end_bounds, lemma_line_end_bounds,
    lemma_term_pos_bounds,
};
use crate::strutil::chars_to_string;

verus! {

broadcast use
    vstd::std_specs::vec::group_vec_axioms,
    lemma_skip_ws_bounds,
    lemma_field_end_bounds,
    lemma_line_end_bounds,
    lemma_term_pos_bounds;

/// Everything the readers can fail with.
#[derive(Debug)]
pub enum ReadErr {
    /// A fault of the underlying source. An in-memory source cannot fail,
    /// so the drivers themselves never produce this; adapters around
    /// fallible sources report their faults under it.
    IoErr,
    /// A list-directed integer field did not parse or did not fit.
    ParseIntError,
    /// A list-directed logical field held neither `T` nor `F`.
    ParseBoolError,
    /// A literal leaf is meaningful only on output.
    UnexpectedLiteral,
    /// The pattern holds no data leaves but values were expected.
    NoDataEditings,
    /// A value was asked for at a position that is not a data leaf.
    InvalidState,
    /// The data leaf does not accept values of this kind.
    InvalidEditing(FormatNode, FortranTag),
}

/// A source of characters handed out one buffered record at a time, as a
/// line-reading interface gives them.
pub struct LineSource {
    data: Vec<char>,
    pos: usize,
}

impl LineSource {
    /// The whole text behind this source.
    pub closed spec fn text(&self) -> Seq<char> {
        self.data@
    }

    /// How much of the text has been handed out.
    pub closed spec fn at(&self) -> int {
        self.pos as int
    }

    /// The hand-out position never passes the end.
    pub closed spec fn wf(&self) -> bool {
        self.pos <= self.data@.len()
    }

    /// A source over the characters of `s`, nothing handed out yet.
    pub fn new(s: &str) -> (r: LineSource)
        ensures
            r.wf(),
            r.text() == s@,
            r.at() == 0,
    {
        LineSource { data: crate::strutil::str_to_chars(s), pos: 0 }
    }

    /// Replaces `line` with the next record, up to and including its
    /// newline; at the end of the text the line comes back empty and the
    /// call reports it.
    pub fn read_line(&mut self, line: &mut Vec<char>) -> (got: bool)
        requires
            old(self).wf(),
        ensures
            final(self).wf(),
            final(self).text() == old(self).text(),
            !got ==> old(self).at() >= old(self).text().len() && final(self).at() == old(self).at()
                && final(line)@ == Seq::<char>::empty(),
            got ==> old(self).at() < old(self).text().len()
                && final(line)@ == old(self).text().subrange(
                old(self).at(),
                line_end(old(self).text(), old(self).at()),
            ) && final(self).at() == line_end(old(self).text(), old(self).at()),
    {
        line.clear();
        if self.pos >= self.data.len() {
            return false;
        }
        let ghost s = self.data@;
        let ghost p0 = self.pos as int;
        loop
            invariant_except_break
                self.wf(),
                self.data@ == s,
                0 <= p0 <= self.at() <= s.len(),
                line@ == s.subrange(p0, self.at()),
                forall|k: int| p0 <= k < self.at() ==> s[k] != '\n',
            ensures
                self.wf(),
                self.data@ == s,
                line@ == s.subrange(p0, self.at()),
                self.at() == line_end(s, p0),
            decreases s.len() - self.pos,
        {
            if self.pos >= self.data.len() {
                proof {
                    lemma_line_end_at(s, p0, self.at());
                }
                break ;
            }
            let c = self.data[self.pos];
            line.push(c);
            self.pos = self.pos + 1;
            proof {
                assert(line@ =~= s.subrange(p0, self.at()));
            }
            if c == '\n' {
                proof {
                    lemma_line_end_at(s, p0, self.at() - 1);
                }
                break ;
            }
        }
        true
    }
}

/// With no newline among `s[i..j]`, the record that starts at `i` ends at
/// the newline at `j` or at the end of the input.
proof fn lemma_line_end_at(s: Seq<char>, i: int, j: int)
    requires
        0 <= i <= j <= s.len(),
        forall|k: int| i <= k < j ==> s[k] != '\n',
    ensures
        j < s.len() && s[j] == '\n' ==> line_end(s, i) == j + 1,
        j == s.len() ==> line_end(s, i) == j,
    decreases j - i,
{
    if i < j {
        lemma_line_end_at(s, i + 1, j);
    }
}

/// The state of a list-directed reader: the buffered line, the position in
/// it, and the source text with its hand-out position.
pub ghost struct DefModel {
    pub line: Seq<char>,
    pub pos: int,
    pub src: Seq<char>,
    pub srcpos: int,
}

/// Reading the next comma- or whitespace-separated field: records are
/// loaded as needed and exhausted or blank records are stepped over; at the
/// end of the source the field is empty.
pub open spec fn spec_next_csv(m: DefModel) -> (Seq<char>, DefModel)
    decreases m.src.len() - m.srcpos,
        when 0 <= m.pos <= m.line.len() && 0 <= m.srcpos <= m.src.len()
{
    if m.pos >= m.line.len() || m.line[m.pos] == '\r' || m.line[m.pos] == '\n' {
        if m.srcpos >= m.src.len() {
            (Seq::empty(), DefModel { line: Seq::empty(), pos: 0, ..m })
        } else {
            let le = line_end(m.src, m.srcpos);
            spec_next_csv(
                DefModel { line: m.src.subrange(m.srcpos, le), pos: 0, srcpos: le, ..m },
            )
        }
    } else {
        let a = skip_ws(m.line, m.pos);
        let b = field_end(m.line, a);
        if b < m.line.len() {
            (
                m.line.subrange(m.pos, b),
                DefModel {
                    pos: if m.line[b] == ',' {
                        b + 1
                    } else {
                        b
                    },
                    ..m
                },
            )
        } else {
            (m.line.subrange(m.pos, m.line.len() as int), DefModel { pos: m.line.len() as int, ..m })
        }
    }
}

/// Reading the rest of the current record, without its terminator; when
/// the record is already spent, one further record is loaded first.
pub open spec fn spec_rest_string(m: DefModel) -> (Seq<char>, DefModel) {
    if m.pos >= term_pos(m.line, 0) {
        if m.srcpos >= m.src.len() {
            (Seq::empty(), DefModel { line: Seq::empty(), pos: 0, ..m })
        } else {
            let le = line_end(m.src, m.srcpos);
            let l2 = m.src.subrange(m.srcpos, le);
            (
                l2.subrange(0, term_pos(l2, 0)),
                DefModel { line: l2, pos: l2.len() as int, srcpos: le, ..m },
            )
        }
    } else {
        (
            m.line.subrange(m.pos, term_pos(m.line, 0)),
            DefModel { pos: m.line.len() as int, ..m },
        )
    }
}

/// A list-directed reader over a line source.
pub struct FortranDefaultReader {
    line: Vec<char>,
    line_pos: usize,
    read: LineSource,
}

impl View for FortranDefaultReader {
    type V = DefModel;

    closed spec fn view(&self) -> DefModel {
        DefModel {
            line: self.line@,
            pos: self.line_pos as int,
            src: self.read.text(),
            srcpos: self.read.at(),
        }
    }
}

impl FortranDefaultReader {
    /// The position stays within the buffered line, and the source within
    /// its text.
    pub closed spec fn wf(&self) -> bool {
        self.line_pos <= self.line@.len() && self.read.wf()
    }

    /// A reader over `read` with an empty buffer.
    pub fn new(read: LineSource) -> (r: FortranDefaultReader)
        requires
            read.wf(),
        ensures
            r.wf(),
            r@ == (DefModel {
                line: Seq::<char>::empty(),
                pos: 0,
                src: read.text(),
                srcpos: read.at(),
            }),
    {
        let r = FortranDefaultReader { read, line: Vec::new(), line_pos: 0 };
        proof {
            assert(r@.line =~= Seq::<char>::empty());
        }
        r
    }

    /// Reads the next comma- or whitespace-separated field.
    #[verifier::loop_isolation(false)]
    #[verifier::rlimit(100)]
    pub fn read_next_csv(&mut self) -> (r: Result<String, ReadErr>)
        requires
            old(self).wf(),
        ensures
            final(self).wf(),
            ({
                let (tok, m2) = spec_next_csv(old(self)@);
                r matches Ok(s) && s@ == tok && final(self)@ == m2
            }),
    {
        loop
            invariant
                self.wf(),
                spec_next_csv(self@) == spec_next_csv(old(self)@),
            decreases self.read.text().len() - self.read.at(),
        {
            let reload = if self.line_pos >= self.line.len() {
                true
            } else {
                let c = self.line[self.line_pos];
                c == '\r' || c == '\n'
            };
            if reload {
                let mut taken: Vec<char> = Vec::new();
                core::mem::swap(&mut taken, &mut self.line);
                let got = self.read.read_line(&mut taken);
                core::mem::swap(&mut taken, &mut self.line);
                self.line_pos = 0;
                if !got {
                    return Ok(String::new());
                }
            } else {
                let mut b = self.line_pos;
                while b < self.line.len() && exec_is_format_ws(self.line[b])
                    invariant
                        self.line_pos <= b <= self.line@.len(),
                        skip_ws(self.line@, self.line_pos as int) == skip_ws(self.line@, b as int),
                    decreases self.line@.len() - b,
                {
                    b += 1;
                }
                proof {
                    assert(skip_ws(self.line@, self.line_pos as int) == b as int);
                }
                while b < self.line.len() && !(exec_is_format_ws(self.line[b]) || self.line[b]
                    == ',')
                    invariant
                        b <= self.line@.len(),
                        field_end(self.line@, skip_ws(self.line@, self.line_pos as int))
                            == field_end(self.line@, b as int),
                    decreases self.line@.len() - b,
                {
                    b += 1;
                }
                proof {
                    assert(field_end(self.line@, skip_ws(self.line@, self.line_pos as int))
                        == b as int);
                }
                if b < self.line.len() {
                    let rv = chars_to_string(&self.line, self.line_pos, b);
                    let is_comma = self.line[b] == ',';
                    self.line_pos = if is_comma {
                        b + 1
                    } else {
                        b
                    };
                    return Ok(rv);
                } else {
                    let rv = chars_to_string(&self.line, self.line_pos, self.line.len());
                    self.line_pos = self.line.len();
                    return Ok(rv);
                }
            }
        }
    }

    /// Reads the rest of the current record, without its terminator,
    /// loading one further record when the current one is spent.
    #[verifier::loop_isolation(false)]
    pub fn read_rest_string(&mut self) -> (r: Result<String, ReadErr>)
        requires
            old(self).wf(),
        ensures
            final(self).wf(),
            ({
                let (tok, m2) = spec_rest_string(old(self)@);
                r matches Ok(s) && s@ == tok && final(self)@ == m2
            }),
    {
        let t = self.find_term();
        if self.line_pos >= t {
            let mut taken: Vec<char> = Vec::new();
            core::mem::swap(&mut taken, &mut self.line);
            let got = self.read.read_line(&mut taken);
            core::mem::swap(&mut taken, &mut self.line);
            self.line_pos = 0;
            if !got {
                return Ok(String::new());
            }
            let t2 = self.find_term();
            let rv = chars_to_string(&self.line, 0, t2);
            self.line_pos = self.line.len();
            Ok(rv)
        } else {
            let rv = chars_to_string(&self.line, self.line_pos, t);
            self.line_pos = self.line.len();
            Ok(rv)
        }
    }

    /// The position of the record terminator in the buffered line.
    fn find_term(&self) -> (t: usize)
        requires
            self.wf(),
        ensures
            t as int == term_pos(self@.line, 0),
            t <= self@.line.len(),
    {
        let mut t: usize = 0;
        while t < self.line.len() && !(self.line[t] == '\r' || self.line[t] == '\n')
            invariant
                t <= self.line@.len(),
                term_pos(self.line@, 0) == term_pos(self.line@, t as int),
            decreases self.line@.len() - t,
        {
            t += 1;
        }
        t
    }
}

/// Sticky options a reading walk carries.
#[derive(Debug, Clone, Copy)]
pub struct ReaderOpts {
    pub terminated: bool,
    pub suppress_newline: bool,
    pub scale: isize,
    pub radix: usize,
}

/// Where a constant-consuming sweep stopped.
#[derive(Debug, Clone, Copy, PartialEq, Eq, Structural)]
pub enum ReadStop {
    /// Poised just before a data leaf.
    AtData,
    /// The walk is exhausted.
    AtEnd,
    /// A terminate (`:`) leaf ended the statement early.
    Done,
    /// The source ran out while a leaf asked for another record.
    Eof,
    /// A literal leaf, which input rejects.
    FaultLit,
    /// An interior node escaped the walk; cannot happen.
    FaultState,
}

/// The full state of a format-directed reader, as contracts see it.
pub ghost struct ReaderModel {
    pub rest: Seq<FNode>,
    pub all: Seq<FNode>,
    pub opts: ReaderOpts,
    pub consumed: bool,
    pub line: Seq<char>,
    pub pos: int,
    pub src: Seq<char>,
    pub srcpos: int,
}

/// What one constant-consuming sweep leaves behind.
pub ghost struct ReadRun {
    pub rest: Seq<FNode>,
    pub opts: ReaderOpts,
    pub line: Seq<char>,
    pub pos: int,
    pub srcpos: int,
    pub stop: ReadStop,
}

/// Classifies a leaf for input: every data leaf gives a value, and so does
/// `Q`; literals and the control leaves do not.
pub open spec fn spec_gives_data(n: FNode) -> bool {
    is_data_leaf(n) || n is RemainingChars
}

/// The constant-consuming sweep: processes leaves in order, moving through
/// the line buffer and the source, until a data leaf, the end of the walk,
/// a terminate that applies, the end of the source, or a fault.
pub open spec fn run_reader(
    rest: Seq<FNode>,
    opts: ReaderOpts,
    line: Seq<char>,
    pos: int,
    src: Seq<char>,
    srcpos: int,
    want_data: bool,
) -> ReadRun
    decreases rest.len(),
        when 0 <= srcpos <= src.len()
{
    if rest.len() == 0 {
        ReadRun { rest, opts, line, pos, srcpos, stop: ReadStop::AtEnd }
    } else {
        let leaf = rest[0];
        if spec_gives_data(leaf) {
            ReadRun { rest, opts, line, pos, srcpos, stop: ReadStop::AtData }
        } else if is_interior(leaf) {
            ReadRun { rest, opts, line, pos, srcpos, stop: ReadStop::FaultState }
        } else if leaf is Literal {
            ReadRun {
                rest: rest.drop_first(),
                opts,
                line,
                pos,
                srcpos,
                stop: ReadStop::FaultLit,
            }
        } else if leaf is Terminate && !want_data {
            ReadRun {
                rest: rest.drop_first(),
                opts: ReaderOpts { terminated: true, ..opts },
                line,
                pos,
                srcpos,
                stop: ReadStop::Done,
            }
        } else if leaf is NewLine {
            if pos == line.len() {
                if srcpos >= src.len() {
                    ReadRun {
                        rest: rest.drop_first(),
                        opts,
                        line: Seq::empty(),
                        pos: 0,
                        srcpos,
                        stop: ReadStop::Eof,
                    }
                } else {
                    let le = line_end(src, srcpos);
                    let l2 = src.subrange(srcpos, le);
                    run_reader(
                        rest.drop_first(),
                        opts,
                        l2,
                        l2.len() as int,
                        src,
                        le,
                        want_data,
                    )
                }
            } else {
                run_reader(rest.drop_first(), opts, line, line.len() as int, src, srcpos, want_data)
            }
        } else if leaf is SkipChar {
            if pos + 1 >= line.len() {
                if srcpos >= src.len() {
                    ReadRun {
                        rest: rest.drop_first(),
                        opts,
                        line: Seq::empty(),
                        pos: 0,
                        srcpos,
                        stop: ReadStop::Eof,
                    }
                } else {
                    let le = line_end(src, srcpos);
                    let l2 = src.subrange(srcpos, le);
                    run_reader(rest.drop_first(), opts, l2, 0, src, le, want_data)
                }
            } else {
                run_reader(rest.drop_first(), opts, line, pos + 1, src, srcpos, want_data)
            }
        } else {
            let opts2 = match leaf {
                FNode::Radix(r) => ReaderOpts { radix: r, ..opts },
                FNode::Scale(p) => ReaderOpts { scale: p, ..opts },
                _ => opts,
            };
            run_reader(rest.drop_first(), opts2, line, pos, src, srcpos, want_data)
        }
    }
}

/// What `consume_constants` does: one sweep, and at the end of the walk
/// either a final record discard or, when more values are wanted, one
/// reversion.
pub open spec fn spec_consume_constants(m: ReaderModel, want_data: bool) -> (
    ReaderModel,
    Result<(), ReadErr>,
) {
    let r1 = run_reader(m.rest, m.opts, m.line, m.pos, m.src, m.srcpos, want_data);
    let m1 = ReaderModel {
        rest: r1.rest,
        opts: r1.opts,
        line: r1.line,
        pos: r1.pos,
        srcpos: r1.srcpos,
        ..m
    };
    match r1.stop {
        ReadStop::AtData => (m1, Ok(())),
        ReadStop::Done => (m1, Ok(())),
        ReadStop::Eof => (m1, Ok(())),
        ReadStop::FaultLit => (m1, Err(ReadErr::UnexpectedLiteral)),
        ReadStop::FaultState => (m1, Err(ReadErr::InvalidState)),
        ReadStop::AtEnd => if !want_data {
            if !m1.opts.suppress_newline {
                if m1.srcpos >= m.src.len() {
                    (ReaderModel { line: Seq::empty(), pos: 0, ..m1 }, Ok(()))
                } else {
                    let le = line_end(m.src, m1.srcpos);
                    (
                        ReaderModel {
                            line: m.src.subrange(m1.srcpos, le),
                            pos: 0,
                            srcpos: le,
                            ..m1
                        },
                        Ok(()),
                    )
                }
            } else {
                (m1, Ok(()))
            }
        } else if !m.consumed {
            (m1, Err(ReadErr::NoDataEditings))
        } else {
            let r2 = run_reader(m.all, r1.opts, r1.line, r1.pos, m.src, r1.srcpos, true);
            let m2 = ReaderModel {
                rest: r2.rest,
                opts: r2.opts,
                line: r2.line,
                pos: r2.pos,
                srcpos: r2.srcpos,
                ..m
            };
            match r2.stop {
                ReadStop::AtData => (m2, Ok(())),
                ReadStop::Eof => (m2, Ok(())),
                ReadStop::FaultLit => (m2, Err(ReadErr::UnexpectedLiteral)),
                ReadStop::FaultState => (m2, Err(ReadErr::InvalidState)),
                // a pattern whose walk held a data leaf stops there; this
                // arm stands for a walk without one
                _ => (m2, Err(ReadErr::NoDataEditings)),
            }
        },
    }
}

/// Classifies a leaf for input: `Ok(true)` exactly for the leaves that
/// give a value, `Q` among them.
pub fn gives_data(n: &FormatNode) -> (r: Result<bool, ReadErr>)
    requires
        !is_interior(n@),
    ensures
        r == Ok::<bool, ReadErr>(spec_gives_data(n@)),
{
    match n {
        FormatNode::NewLine => Ok(false),
        FormatNode::SkipChar => Ok(false),
        FormatNode::SuppressNewLine => Ok(false),
        FormatNode::Terminate => Ok(false),
        FormatNode::BlankControl(_) => Ok(false),
        FormatNode::AbsColumn(_) => Ok(false),
        FormatNode::RelColumn(_) => Ok(false),
        FormatNode::Radix(_) => Ok(false),
        FormatNode::Scale(_) => Ok(false),
        FormatNode::Literal(_) => Ok(false),
        FormatNode::Str(_) => Ok(true),
        FormatNode::Bool(_) => Ok(true),
        FormatNode::Int(..) => Ok(true),
        FormatNode::Oct(..) => Ok(true),
        FormatNode::Hex(..) => Ok(true),
        FormatNode::Real(..) => Ok(true),
        FormatNode::RemainingChars => Ok(true),
        FormatNode::Group(_) => vstd::pervasive::unreached(),
        FormatNode::Repeat(..) => vstd::pervasive::unreached(),
    }
}

/// A format-directed reader driving one format tree over a line source.
pub struct FortranIterReader {
    iter: FormatEvalIter,
    pending: Option<FormatNode>,
    line: Vec<char>,
    line_pos: usize,
    consumed_data: bool,
    read: LineSource,
    node: FormatNode,
    opts: ReaderOpts,
}

impl View for FortranIterReader {
    type V = ReaderModel;

    closed spec fn view(&self) -> ReaderModel {
        ReaderModel {
            rest: match self.pending {
                Some(n) => seq![n@] + self.iter.rem(),
                None => self.iter.rem(),
            },
            all: leaves_of(self.node@),
            opts: self.opts,
            consumed: self.consumed_data,
            line: self.line@,
            pos: self.line_pos as int,
            src: self.read.text(),
            srcpos: self.read.at(),
        }
    }
}

impl FortranIterReader {
    /// A leaf held back for the next value always gives data, the line
    /// position stays within the buffer, and the source within its text.
    pub closed spec fn wf(&self) -> bool {
        &&& match self.pending {
            Some(n) => spec_gives_data(n@) && !is_interior(n@),
            None => true,
        }
        &&& self.line_pos <= self.line@.len()
        &&& self.read.wf()
    }

    /// A fresh reader at the start of the walk of `fmt`, with default
    /// sticky options, an empty line buffer and nothing consumed.
    pub fn new(fmt: &FormatNode, read: LineSource) -> (r: FortranIterReader)
        requires
            read.wf(),
        ensures
            r.wf(),
            r@ == (ReaderModel {
                rest: leaves_of(fmt@),
                all: leaves_of(fmt@),
                opts: ReaderOpts {
                    terminated: false,
                    suppress_newline: false,
                    scale: 0 as isize,
                    radix: 10 as usize,
                },
                consumed: false,
                line: Seq::<char>::empty(),
                pos: 0,
                src: read.text(),
                srcpos: read.at(),
            }),
    {
        let r = FortranIterReader {
            opts: ReaderOpts { terminated: false, suppress_newline: false, scale: 0, radix: 10 },
            line: Vec::new(),
            line_pos: 0,
            read,
            consumed_data: false,
            pending: None,
            node: fmt.clone(),
            iter: FormatEvalIter::new(fmt),
        };
        proof {
            assert(r@.line =~= Seq::<char>::empty());
        }
        r
    }

    /// Replaces the buffered line with the next record.
    fn read_line(&mut self) -> (got: bool)
        requires
            old(self).wf(),
        ensures
            final(self).wf(),
            final(self)@.rest == old(self)@.rest,
            final(self)@.all == old(self)@.all,
            final(self)@.opts == old(self)@.opts,
            final(self)@.consumed == old(self)@.consumed,
            final(self)@.src == old(self)@.src,
            final(self)@.pos == 0,
            !got ==> old(self)@.srcpos >= old(self)@.src.len() && final(self)@.srcpos == old(
                self,
            )@.srcpos && final(self)@.line == Seq::<char>::empty(),
            got ==> old(self)@.srcpos < old(self)@.src.len() && final(self)@.line == old(
                self,
            )@.src.subrange(old(self)@.srcpos, line_end(old(self)@.src, old(self)@.srcpos))
                && final(self)@.srcpos == line_end(old(self)@.src, old(self)@.srcpos),
    {
        let mut taken: Vec<char> = Vec::new();
        core::mem::swap(&mut taken, &mut self.line);
        let got = self.read.read_line(&mut taken);
        core::mem::swap(&mut taken, &mut self.line);
        self.line_pos = 0;
        got
    }

    /// Takes the next leaf of the walk, the held-back one first.
    fn take_leaf(&mut self) -> (r: Option<FormatNode>)
        requires
            old(self).wf(),
        ensures
            final(self).wf(),
            final(self)@ == (ReaderModel { rest: final(self)@.rest, ..old(self)@ }),
            final(self).pending is None,
            old(self)@.rest.len() == 0 ==> r is None && final(self)@.rest == old(self)@.rest,
            old(self)@.rest.len() > 0 ==> (r matches Some(n) && n@ == old(self)@.rest[0]
                && final(self)@.rest == old(self)@.rest.drop_first() && !is_interior(n@)),
    {
        let mut taken: Option<FormatNode> = None;
        core::mem::swap(&mut taken, &mut self.pending);
        match taken {
            Some(n) => {
                proof {
                    assert((seq![n@] + self.iter.rem()).drop_first() =~= self.iter.rem());
                }
                Some(n)
            },
            None => self.iter.next(),
        }
    }

    /// One constant-consuming sweep, stopping before the next data leaf.
    #[verifier::loop_isolation(false)]
    #[verifier::rlimit(100)]
    fn advance_constants(&mut self, want_data: bool) -> (r: ReadStop)
        requires
            old(self).wf(),
        ensures
            final(self).wf(),
            final(self)@.all == old(self)@.all,
            final(self)@.consumed == old(self)@.consumed,
            final(self)@.src == old(self)@.src,
            ({
                let ro = run_reader(
                    old(self)@.rest,
                    old(self)@.opts,
                    old(self)@.line,
                    old(self)@.pos,
                    old(self)@.src,
                    old(self)@.srcpos,
                    want_data,
                );
                r == ro.stop && final(self)@.rest == ro.rest && final(self)@.opts == ro.opts
                    && final(self)@.line == ro.line && final(self)@.pos == ro.pos
                    && final(self)@.srcpos == ro.srcpos
            }),
    {
        let ghost r0 = run_reader(
            old(self)@.rest,
            old(self)@.opts,
            old(self)@.line,
            old(self)@.pos,
            old(self)@.src,
            old(self)@.srcpos,
            want_data,
        );
        loop
            invariant
                self.wf(),
                self@.all == old(self)@.all,
                self@.consumed == old(self)@.consumed,
                self@.src == old(self)@.src,
                ({
                    let cur = run_reader(
                        self@.rest,
                        self@.opts,
                        self@.line,
                        self@.pos,
                        self@.src,
                        self@.srcpos,
                        want_data,
                    );
                    r0.rest == cur.rest && r0.opts == cur.opts && r0.line == cur.line && r0.pos
                        == cur.pos && r0.srcpos == cur.srcpos && r0.stop == cur.stop
                }),
            decreases self@.rest.len(),
        {
            let ghost mpre = self@;
            let leaf = match self.take_leaf() {
                None => {
                    return ReadStop::AtEnd;
                },
                Some(l) => l,
            };
            let has = match gives_data(&leaf) {
                Ok(b) => b,
                Err(_) => false,
            };
            if has {
                self.pending = Some(leaf);
                proof {
                    assert(self@.rest =~= mpre.rest);
                }
                return ReadStop::AtData;
            }
            match leaf {
                FormatNode::Radix(rr) => {
                    self.opts.radix = rr;
                },
                FormatNode::Scale(p) => {
                    self.opts.scale = p;
                },
                FormatNode::NewLine => {
                    if self.line_pos == self.line.len() {
                        if !self.read_line() {
                            return ReadStop::Eof;
                        }
                    }
                    self.line_pos = self.line.len();
                },
                FormatNode::SkipChar => {
                    if self.line.len() == 0 || self.line_pos >= self.line.len() - 1 {
                        if !self.read_line() {
                            return ReadStop::Eof;
                        }
                    } else {
                        self.line_pos = self.line_pos + 1;
                    }
                },
                FormatNode::SuppressNewLine => (),
                FormatNode::Terminate => {
                    if !want_data {
                        self.opts.terminated = true;
                        return ReadStop::Done;
                    }
                },
                FormatNode::Literal(_) => {
                    return ReadStop::FaultLit;
                },
                FormatNode::BlankControl(_) => (),
                FormatNode::AbsColumn(_) => (),
                FormatNode::RelColumn(_) => (),
                _ => {
                    proof {
                        assert(false);
                    }
                },
            }
        }
    }

    /// Consumes every non-data leaf up to the next data leaf, moving
    /// through records as newline and skip leaves ask. At the end of the
    /// walk: with no more values wanted, discards the rest of the current
    /// record; with values still wanted, restarts the walk once
    /// (reversion), or reports `NoDataEditings` when no data leaf was ever
    /// consumed.
    pub fn consume_constants(&mut self, want_data: bool) -> (r: Result<(), ReadErr>)
        requires
            old(self).wf(),
        ensures
            final(self).wf(),
            final(self)@.all == old(self)@.all,
            final(self)@.consumed == old(self)@.consumed,
            final(self)@.src == old(self)@.src,
            ({
                let (m2, res) = spec_consume_constants(old(self)@, want_data);
                final(self)@.rest == m2.rest && final(self)@.opts == m2.opts && final(self)@.line
                    == m2.line && final(self)@.pos == m2.pos && final(self)@.srcpos == m2.srcpos
                    && (match (r, res) {
                    (Ok(()), Ok(())) => true,
                    (Err(e), Err(e2)) => e == e2,
                    _ => false,
                })
            }),
    {
        let stop = self.advance_constants(want_data);
        match stop {
            ReadStop::AtData => Ok(()),
            ReadStop::Done => Ok(()),
            ReadStop::Eof => Ok(()),
            ReadStop::FaultLit => Err(ReadErr::UnexpectedLiteral),
            ReadStop::FaultState => Err(ReadErr::InvalidState),
            ReadStop::AtEnd => {
                if !want_data {
                    if !self.opts.suppress_newline {
                        let _ = self.read_line();
                    }
                    Ok(())
                } else {
                    if !self.consumed_data {
                        return Err(ReadErr::NoDataEditings);
                    }
                    let it = FormatEvalIter::new(&self.node);
                    self.iter = it;
                    self.pending = None;
                    proof {
                        lemma_walk_yields_leaves(self.node@);
                    }
                    let stop2 = self.advance_constants(true);
                    match stop2 {
                        ReadStop::AtData => Ok(()),
                        ReadStop::Eof => Ok(()),
                        ReadStop::FaultLit => Err(ReadErr::UnexpectedLiteral),
                        ReadStop::FaultState => Err(ReadErr::InvalidState),
                        _ => Err(ReadErr::NoDataEditings),
                    }
                }
            },
        }
    }
}

/// A destination the readers can fill.
pub trait FortranRead: Sized {
    /// The reader transition a list-directed read into this destination
    /// makes, and whether a value was read.
    spec fn default_read_model(&self, m: DefModel) -> (DefModel, Result<bool, ReadErr>);

    /// How the destination after the call relates to the one before it.
    spec fn default_read_updates(&self, new_self: Self, m: DefModel) -> bool;

    /// Format-directed reads of values are not performed: the destination
    /// and the reader are left alone and no value is reported.
    fn fortran_read(&mut self, reader: &mut FortranIterReader) -> (r: Result<bool, ReadErr>)
        ensures
            r == Ok::<bool, ReadErr>(false),
            *final(self) == *old(self),
            *final(reader) == *old(reader),
    ;

    /// Reads one list-directed field into this destination.
    fn fortran_read_default(&mut self, reader: &mut FortranDefaultReader) -> (r: Result<
        bool,
        ReadErr,
    >)
        requires
            old(reader).wf(),
        ensures
            final(reader).wf(),
            ({
                let (m2, r2) = old(self).default_read_model(old(reader)@);
                final(reader)@ == m2 && r == r2 && old(self).default_read_updates(
                    *final(self),
                    old(reader)@,
                )
            }),
    ;
}

/// The reader transition of one integer field: an empty field reads
/// nothing; a malformed field, a sign on an unsigned destination, or a
/// value outside `[lo, hi]` is `ParseIntError`.
pub open spec fn int_read_model(m: DefModel, lo: int, hi: int, signed: bool) -> (
    DefModel,
    Result<bool, ReadErr>,
) {
    let (tok, m2) = spec_next_csv(m);
    let clear = strip_ws(tok);
    if clear.len() == 0 {
        (m2, Ok(false))
    } else {
        match sp_signed_int(clear) {
            None => (m2, Err(ReadErr::ParseIntError)),
            Some((neg, mag)) => if neg && !signed {
                (m2, Err(ReadErr::ParseIntError))
            } else {
                let v = if neg {
                    -(mag as int)
                } else {
                    mag as int
                };
                if lo <= v <= hi {
                    (m2, Ok(true))
                } else {
                    (m2, Err(ReadErr::ParseIntError))
                }
            },
        }
    }
}

/// The value an integer destination holds after the read: the parsed value
/// when one was read in range, its old value otherwise.
pub open spec fn int_read_upd(m: DefModel, oldv: int, lo: int, hi: int, signed: bool) -> int {
    let (tok, m2) = spec_next_csv(m);
    let clear = strip_ws(tok);
    if clear.len() == 0 {
        oldv
    } else {
        match sp_signed_int(clear) {
            None => oldv,
            Some((neg, mag)) => if neg && !signed {
                oldv
            } else {
                let v = if neg {
                    -(mag as int)
                } else {
                    mag as int
                };
                if lo <= v <= hi {
                    v
                } else {
                    oldv
                }
            },
        }
    }
}

/// What the scan of one integer field found.
enum IntScan {
    /// An empty field: nothing is read.
    NoValue,
    /// Not an optionally signed digit run.
    Bad,
    /// A sign and a magnitude that fits a machine word.
    Small(bool, u64),
    /// A magnitude too large for any destination.
    Huge(bool),
}

/// Collects the characters of a string slice with the whitespace taken
/// out.
fn strip_to_chars(s: &str) -> (r: Vec<char>)
    ensures
        r@ == strip_ws(s@),
{
    let n = s.unicode_len();
    let mut r: Vec<char> = Vec::new();
    let mut i: usize = 0;
    proof {
        assert(s@.skip(0) =~= s@);
    }
    while i < n
        invariant
            n == s@.len(),
            i <= n,
            strip_ws(s@) == r@ + strip_ws(s@.skip(i as int)),
        decreases n - i,
    {
        let c = s.get_char(i);
        proof {
            assert(s@.skip(i as int)[0] == s@[i as int]);
            assert(s@.skip(i as int).drop_first() =~= s@.skip(i + 1));
        }
        if !exec_is_format_ws(c) {
            r.push(c);
        }
        i += 1;
    }
    proof {
        assert(strip_ws(s@.skip(n as int)) == Seq::<char>::empty());
        assert(strip_ws(s@) =~= r@);
    }
    r
}

/// Reads one field and scans it as an optionally signed decimal integer.
#[verifier::loop_isolation(false)]
#[verifier::rlimit(100)]
fn scan_int_field(reader: &mut FortranDefaultReader) -> (r: IntScan)
    requires
        old(reader).wf(),
    ensures
        final(reader).wf(),
        final(reader)@ == spec_next_csv(old(reader)@).1,
        ({
            let clear = strip_ws(spec_next_csv(old(reader)@).0);
            match sp_signed_int(clear) {
                None => if clear.len() == 0 {
                    r is NoValue
                } else {
                    r is Bad
                },
                Some((neg, mag)) => if mag <= u64::MAX {
                    r == IntScan::Small(neg, mag as u64)
                } else {
                    r == IntScan::Huge(neg)
                },
            }
        }),
{
    let tok = match reader.read_next_csv() {
        Ok(t) => t,
        Err(_) => {
            return IntScan::Bad;
        },
    };
    let clear = strip_to_chars(tok.as_str());
    if clear.len() == 0 {
        return IntScan::NoValue;
    }
    let first = clear[0];
    let neg = first == '-';
    let start: usize = if first == '-' || first == '+' {
        1
    } else {
        0
    };
    if clear.len() == start {
        proof {
            assert(clear@.drop_first().len() == 0);
            assert(sp_signed_int(clear@) is None);
        }
        return IntScan::Bad;
    }
    let ghost digs = clear@.skip(start as int);
    proof {
        if start == 0 {
            assert(digs =~= clear@);
        }
    }
    let mut val: u128 = 0;
    let umax: u128 = u64::MAX as u128;
    let mut i: usize = start;
    while i < clear.len()
        invariant
            start <= i <= clear@.len(),
            digs == clear@.skip(start as int),
            forall|k: int| 0 <= k < i - start ==> crate::scan::is_dec_digit(#[trigger] digs[k]),
            val <= umax ==> val as nat == digits_val(digs, 0, i - start),
            val > umax ==> digits_val(digs, 0, i - start) > u64::MAX,
        decreases clear@.len() - i,
    {
        let c = clear[i];
        if !crate::scan::exec_is_dec_digit(c) {
            proof {
                assert(digs[i - start] == clear@[i as int]);
                lemma_digits_end_stops(digs, 0, i - start);
                assert(sp_signed_int(clear@) is None);
            }
            return IntScan::Bad;
        }
        let d: u128 = ((c as u32) - 48) as u128;
        proof {
            assert(digs[i - start] == clear@[i as int]);
            assert(crate::scan::digit_val(c) == d);
            assert(digits_val(digs, 0, i + 1 - start) == digits_val(digs, 0, i - start) * 10
                + crate::scan::digit_val(digs[i - start]));
        }
        if val <= umax {
            val = val * 10 + d;
        }
        i += 1;
    }
    proof {
        assert(digits_end(digs, 0) == digs.len()) by {
            lemma_all_digits(digs);
        }
        assert(sp_signed_int(clear@) == Some((neg, digits_val(digs, 0, digs.len() as int))));
    }
    if val > umax {
        IntScan::Huge(neg)
    } else {
        IntScan::Small(neg, val as u64)
    }
}

/// The digit scan never passes a non-digit.
proof fn lemma_digits_end_stops(s: Seq<char>, i: int, j: int)
    requires
        0 <= i <= j < s.len(),
        !crate::scan::is_dec_digit(s[j]),
    ensures
        digits_end(s, i) <= j,
    decreases j - i,
{
    if i < j && crate::scan::is_dec_digit(s[i]) {
        lemma_digits_end_stops(s, i + 1, j);
    }
}

/// A run made of digits scans as digits to its end.
proof fn lemma_all_digits(s: Seq<char>)
    requires
        forall|k: int| 0 <= k < s.len() ==> crate::scan::is_dec_digit(#[trigger] s[k]),
    ensures
        digits_end(s, 0) == s.len(),
{
    lemma_all_digits_from(s, 0);
}

proof fn lemma_all_digits_from(s: Seq<char>, i: int)
    requires
        0 <= i <= s.len(),
        forall|k: int| i <= k < s.len() ==> crate::scan::is_dec_digit(#[trigger] s[k]),
    ensures
        digits_end(s, i) == s.len(),
    decreases s.len() - i,
{
    if i < s.len() {
        lemma_all_digits_from(s, i + 1);
    }
}

impl FortranRead for u8 {
    open spec fn default_read_model(&self, m: DefModel) -> (DefModel, Result<bool, ReadErr>) {
        int_read_model(m, 0, 255, false)
    }

    open spec fn default_read_updates(&self, new_self: u8, m: DefModel) -> bool {
        new_self as int == int_read_upd(m, *self as int, 0, 255, false)
    }

    fn fortran_read(&mut self, _reader: &mut FortranIterReader) -> (r: Result<bool, ReadErr>) {
        Ok(false)
    }

    fn fortran_read_default(&mut self, reader: &mut FortranDefaultReader) -> (r: Result<
        bool,
        ReadErr,
    >) {
        match scan_int_field(reader) {
            IntScan::NoValue => Ok(false),
            IntScan::Bad => Err(ReadErr::ParseIntError),
            IntScan::Huge(_) => Err(ReadErr::ParseIntError),
            IntScan::Small(neg, mag) => {
                if neg {
                    Err(ReadErr::ParseIntError)
                } else if mag <= 255u64 {
                    *self = mag as u8;
                    Ok(true)
                } else {
                    Err(ReadErr::ParseIntError)
                }
            },
        }
    }
}

impl FortranRead for u16 {
    open spec fn default_read_model(&self, m: DefModel) -> (DefModel, Result<bool, ReadErr>) {
        int_read_model(m, 0, 65535, false)
    }

    open spec fn default_read_updates(&self, new_self: u16, m: DefModel) -> bool {
        new_self as int == int_read_upd(m, *self as int, 0, 65535, false)
    }

    fn fortran_read(&mut self, _reader: &mut FortranIterReader) -> (r: Result<bool, ReadErr>) {
        Ok(false)
    }

    fn fortran_read_default(&mut self, reader: &mut FortranDefaultReader) -> (r: Result<
        bool,
        ReadErr,
    >) {
        match scan_int_field(reader) {
            IntScan::NoValue => Ok(false),
            IntScan::Bad => Err(ReadErr::ParseIntError),
            IntScan::Huge(_) => Err(ReadErr::ParseIntError),
            IntScan::Small(neg, mag) => {
                if neg {
                    Err(ReadErr::ParseIntError)
                } else if mag <= 65535u64 {
                    *self = mag as u16;
                    Ok(true)
                } else {
                    Err(ReadErr::ParseIntError)
                }
            },
        }
    }
}

impl FortranRead for u32 {
    open spec fn default_read_model(&self, m: DefModel) -> (DefModel, Result<bool, ReadErr>) {
        int_read_model(m, 0, 4294967295, false)
    }

    open spec fn default_read_updates(&self, new_self: u32, m: DefModel) -> bool {
        new_self as int == int_read_upd(m, *self as int, 0, 4294967295, false)
    }

    fn fortran_read(&mut self, _reader: &mut FortranIterReader) -> (r: Result<bool, ReadErr>) {
        Ok(false)
    }

    fn fortran_read_default(&mut self, reader: &mut FortranDefaultReader) -> (r: Result<
        bool,
        ReadErr,
    >) {
        match scan_int_field(reader) {
            IntScan::NoValue => Ok(false),
            IntScan::Bad => Err(ReadErr::ParseIntError),
            IntScan::Huge(_) => Err(ReadErr::ParseIntError),
            IntScan::Small(neg, mag) => {
                if neg {
                    Err(ReadErr::ParseIntError)
                } else if mag <= 4294967295u64 {
                    *self = mag as u32;
                    Ok(true)
                } else {
                    Err(ReadErr::ParseIntError)
                }
            },
        }
    }
}

impl FortranRead for u64 {
    open spec fn default_read_model(&self, m: DefModel) -> (DefModel, Result<bool, ReadErr>) {
        int_read_model(m, 0, 18446744073709551615, false)
    }

    open spec fn default_read_updates(&self, new_self: u64, m: DefModel) -> bool {
        new_self as int == int_read_upd(m, *self as int, 0, 18446744073709551615, false)
    }

    fn fortran_read(&mut self, _reader: &mut FortranIterReader) -> (r: Result<bool, ReadErr>) {
        Ok(false)
    }

    fn fortran_read_default(&mut self, reader: &mut FortranDefaultReader) -> (r: Result<
        bool,
        ReadErr,
    >) {
        match scan_int_field(reader) {
            IntScan::NoValue => Ok(false),
            IntScan::Bad => Err(ReadErr::ParseIntError),
            IntScan::Huge(_) => Err(ReadErr::ParseIntError),
            IntScan::Small(neg, mag) => {
                if neg {
                    Err(ReadErr::ParseIntError)
                } else if mag <= 18446744073709551615u64 {
                    *self = mag as u64;
                    Ok(true)
                } else {
                    Err(ReadErr::ParseIntError)
                }
            },
        }
    }
}

impl FortranRead for i8 {
    open spec fn default_read_model(&self, m: DefModel) -> (DefModel, Result<bool, ReadErr>) {
        int_read_model(m, -128, 127, true)
    }

    open spec fn default_read_updates(&self, new_self: i8, m: DefModel) -> bool {
        new_self as int == int_read_upd(m, *self as int, -128, 127, true)
    }

    fn fortran_read(&mut self, _reader: &mut FortranIterReader) -> (r: Result<bool, ReadErr>) {
        Ok(false)
    }

    fn fortran_read_default(&mut self, reader: &mut FortranDefaultReader) -> (r: Result<
        bool,
        ReadErr,
    >) {
        match scan_int_field(reader) {
            IntScan::NoValue => Ok(false),
            IntScan::Bad => Err(ReadErr::ParseIntError),
            IntScan::Huge(_) => Err(ReadErr::ParseIntError),
            IntScan::Small(neg, mag) => {
                if !neg {
                    if mag <= 127u64 {
                        *self = mag as i8;
                        Ok(true)
                    } else {
                        Err(ReadErr::ParseIntError)
                    }
                } else {
                    if mag <= 128u64 {
                        *self = (-(mag as i128)) as i8;
                        Ok(true)
                    } else {
                        Err(ReadErr::ParseIntError)
                    }
                }
            },
        }
    }
}

impl FortranRead for i16 {
    open spec fn default_read_model(&self, m: DefModel) -> (DefModel, Result<bool, ReadErr>) {
        int_read_model(m, -32768, 32767, true)
    }

    open spec fn default_read_updates(&self, new_self: i16, m: DefModel) -> bool {
        new_self as int == int_read_upd(m, *self as int, -32768, 32767, true)
    }

    fn fortran_read(&mut self, _reader: &mut FortranIterReader) -> (r: Result<bool, ReadErr>) {
        Ok(false)
    }

    fn fortran_read_default(&mut self, reader: &mut FortranDefaultReader) -> (r: Result<
        bool,
        ReadErr,
    >) {
        match scan_int_field(reader) {
            IntScan::NoValue => Ok(false),
            IntScan::Bad => Err(ReadErr::ParseIntError),
            IntScan::Huge(_) => Err(ReadErr::ParseIntError),
            IntScan::Small(neg, mag) => {
                if !neg {
                    if mag <= 32767u64 {
                        *self = mag as i16;
                        Ok(true)
                    } else {
                        Err(ReadErr::ParseIntError)
                    }
                } else {
                    if mag <= 32768u64 {
                        *self = (-(mag as i128)) as i16;
                        Ok(true)
                    } else {
                        Err(ReadErr::ParseIntError)
                    }
                }
            },
        }
    }
}

impl FortranRead for i32 {
    open spec fn default_read_model(&self, m: DefModel) -> (DefModel, Result<bool, ReadErr>) {
        int_read_model(m, -2147483648, 2147483647, true)
    }

    open spec fn default_read_updates(&self, new_self: i32, m: DefModel) -> bool {
        new_self as int == int_read_upd(m, *self as int, -2147483648, 2147483647, true)
    }

    fn fortran_read(&mut self, _reader: &mut FortranIterReader) -> (r: Result<bool, ReadErr>) {
        Ok(false)
    }

    fn fortran_read_default(&mut self, reader: &mut FortranDefaultReader) -> (r: Result<
        bool,
        ReadErr,
    >) {
        match scan_int_field(reader) {
            IntScan::NoValue => Ok(false),
            IntScan::Bad => Err(ReadErr::ParseIntError),
            IntScan::Huge(_) => Err(ReadErr::ParseIntError),
            IntScan::Small(neg, mag) => {
                if !neg {
                    if mag <= 2147483647u64 {
                        *self = mag as i32;
                        Ok(true)
                    } else {
                        Err(ReadErr::ParseIntError)
                    }
                } else {
                    if mag <= 2147483648u64 {
                        *self = (-(mag as i128)) as i32;
                        Ok(true)
                    } else {
                        Err(ReadErr::ParseIntError)
                    }
                }
            },
        }
    }
}

impl FortranRead for i64 {
    open spec fn default_read_model(&self, m: DefModel) -> (DefModel, Result<bool, ReadErr>) {
        int_read_model(m, -9223372036854775808, 9223372036854775807, true)
    }

    open spec fn default_read_updates(&self, new_self: i64, m: DefModel) -> bool {
        new_self as int == int_read_upd(m, *self as int, -9223372036854775808, 9223372036854775807, true)
    }

    fn fortran_read(&mut self, _reader: &mut FortranIterReader) -> (r: Result<bool, ReadErr>) {
        Ok(false)
    }

    fn fortran_read_default(&mut self, reader: &mut FortranDefaultReader) -> (r: Result<
        bool,
        ReadErr,
    >) {
        match scan_int_field(reader) {
            IntScan::NoValue => Ok(false),
            IntScan::Bad => Err(ReadErr::ParseIntError),
            IntScan::Huge(_) => Err(ReadErr::ParseIntError),
            IntScan::Small(neg, mag) => {
                if !neg {
                    if mag <= 9223372036854775807u64 {
                        *self = mag as i64;
                        Ok(true)
                    } else {
                        Err(ReadErr::ParseIntError)
                    }
                } else {
                    if mag <= 9223372036854775808u64 {
                        *self = (-(mag as i128)) as i64;
                        Ok(true)
                    } else {
                        Err(ReadErr::ParseIntError)
                    }
                }
            },
        }
    }
}

/// The reader transition of one logical field: the first non-blank
/// character decides, `T` or `F` in either case; an empty field reads
/// nothing; anything else is `ParseBoolError`.
pub open spec fn bool_read_model(m: DefModel) -> (DefModel, Result<bool, ReadErr>) {
    let (tok, m2) = spec_next_csv(m);
    let clear = strip_ws(tok);
    if clear.len() == 0 {
        (m2, Ok(false))
    } else if clear[0] == 'T' || clear[0] == 't' || clear[0] == 'F' || clear[0] == 'f' {
        (m2, Ok(true))
    } else {
        (m2, Err(ReadErr::ParseBoolError))
    }
}

/// The value a logical destination holds after the read.
pub open spec fn bool_read_upd(m: DefModel, oldv: bool) -> bool {
    let (tok, m2) = spec_next_csv(m);
    let clear = strip_ws(tok);
    if clear.len() == 0 {
        oldv
    } else if clear[0] == 'T' || clear[0] == 't' {
        true
    } else if clear[0] == 'F' || clear[0] == 'f' {
        false
    } else {
        oldv
    }
}

impl FortranRead for bool {
    open spec fn default_read_model(&self, m: DefModel) -> (DefModel, Result<bool, ReadErr>) {
        bool_read_model(m)
    }

    open spec fn default_read_updates(&self, new_self: bool, m: DefModel) -> bool {
        new_self == bool_read_upd(m, *self)
    }

    fn fortran_read(&mut self, _reader: &mut FortranIterReader) -> (r: Result<bool, ReadErr>) {
        Ok(false)
    }

    fn fortran_read_default(&mut self, reader: &mut FortranDefaultReader) -> (r: Result<
        bool,
        ReadErr,
    >) {
        let tok = match reader.read_next_csv() {
            Ok(t) => t,
            Err(_) => {
                return vstd::pervasive::unreached();
            },
        };
        let clear = strip_to_chars(tok.as_str());
        if clear.len() == 0 {
            return Ok(false);
        }
        let c = clear[0];
        if c == 'T' || c == 't' {
            *self = true;
            Ok(true)
        } else if c == 'F' || c == 'f' {
            *self = false;
            Ok(true)
        } else {
            Err(ReadErr::ParseBoolError)
        }
    }
}

impl FortranRead for String {
    open spec fn default_read_model(&self, m: DefModel) -> (DefModel, Result<bool, ReadErr>) {
        (spec_rest_string(m).1, Ok(true))
    }

    open spec fn default_read_updates(&self, new_self: String, m: DefModel) -> bool {
        new_self@ == spec_rest_string(m).0
    }

    fn fortran_read(&mut self, _reader: &mut FortranIterReader) -> (r: Result<bool, ReadErr>) {
        Ok(false)
    }

    fn fortran_read_default(&mut self, reader: &mut FortranDefaultReader) -> (r: Result<
        bool,
        ReadErr,
    >) {
        let next = match reader.read_rest_string() {
            Ok(t) => t,
            Err(_) => {
                return vstd::pervasive::unreached();
            },
        };
        *self = next;
        Ok(true)
    }
}

/// The reader transition of a sequence of destinations, each reading one
/// field in turn; a value counts as read when any element read one, and
/// the first fault stops the fold.
pub open spec fn seq_read_model<T: FortranRead>(elems: Seq<T>, m: DefModel) -> (
    DefModel,
    Result<bool, ReadErr>,
)
    decreases elems.len(),
{
    if elems.len() == 0 {
        (m, Ok(false))
    } else {
        let (m2, r2) = elems[0].default_read_model(m);
        match r2 {
            Err(e) => (m2, Err(e)),
            Ok(b) => {
                let (m3, r3) = seq_read_model(elems.drop_first(), m2);
                match r3 {
                    Err(e) => (m3, Err(e)),
                    Ok(b2) => (m3, Ok(b || b2)),
                }
            },
        }
    }
}

/// How a sequence of destinations relates to its old self after the fold:
/// elements before the first fault are updated by their own reads, the
/// rest are untouched.
pub open spec fn seq_read_updates<T: FortranRead>(
    olds: Seq<T>,
    news: Seq<T>,
    m: DefModel,
) -> bool
    decreases olds.len(),
{
    if olds.len() != news.len() {
        false
    } else if olds.len() == 0 {
        true
    } else {
        let (m2, r2) = olds[0].default_read_model(m);
        olds[0].default_read_updates(news[0], m) && (match r2 {
            Ok(_) => seq_read_updates(olds.drop_first(), news.drop_first(), m2),
            Err(_) => news.drop_first() == olds.drop_first(),
        })
    }
}

impl<T: FortranRead> FortranRead for Vec<T> {
    open spec fn default_read_model(&self, m: DefModel) -> (DefModel, Result<bool, ReadErr>) {
        seq_read_model(self@, m)
    }

    open spec fn default_read_updates(&self, new_self: Vec<T>, m: DefModel) -> bool {
        seq_read_updates(self@, new_self@, m)
    }

    fn fortran_read(&mut self, _reader: &mut FortranIterReader) -> (r: Result<bool, ReadErr>) {
        Ok(false)
    }

    #[verifier::loop_isolation(false)]
    #[verifier::rlimit(100)]
    fn fortran_read_default(&mut self, reader: &mut FortranDefaultReader) -> (r: Result<
        bool,
        ReadErr,
    >) {
        let ghost elems0 = self@;
        let ghost m0 = reader@;
        let mut out: Vec<T> = Vec::new();
        let mut any = false;
        proof {
            assert(elems0.skip(0) =~= elems0);
        }
        loop
            invariant
                reader.wf(),
                out@.len() + self@.len() == elems0.len(),
                self@ == elems0.skip(out@.len() as int),
                ({
                    let full = seq_read_model(elems0, m0);
                    let cur = seq_read_model(self@, reader@);
                    full.0 == cur.0 && (match (full.1, cur.1) {
                        (Ok(a), Ok(b)) => a == (any || b),
                        (Err(e1), Err(e2)) => e1 == e2,
                        _ => false,
                    })
                }),
                forall|news2: Seq<T>|
                    seq_read_updates(self@, news2, reader@) ==> #[trigger] seq_read_updates(
                        elems0,
                        out@ + news2,
                        m0,
                    ),
            decreases self@.len(),
        {
            if self.len() == 0 {
                break ;
            }
            let ghost selfpre = self@;
            let ghost mpre = reader@;
            let mut x = self.remove(0);
            proof {
                assert(self@ =~= selfpre.drop_first());
            }
            let res = x.fortran_read_default(reader);
            match res {
                Ok(b) => {
                    if b {
                        any = true;
                    }
                    let ghost outpre = out@;
                    out.push(x);
                    proof {
                        assert(self@ =~= elems0.skip(out@.len() as int));
                        assert forall|news2: Seq<T>|
                            seq_read_updates(self@, news2, reader@) implies #[trigger] seq_read_updates(
                            elems0,
                            out@ + news2,
                            m0,
                        ) by {
                            assert((seq![x] + news2)[0] == x);
                            assert((seq![x] + news2).drop_first() =~= news2);
                            assert(selfpre.drop_first() =~= self@);
                            assert(seq_read_updates(selfpre, seq![x] + news2, mpre));
                            assert(outpre + (seq![x] + news2) =~= out@ + news2);
                        }
                    }
                },
                Err(e) => {
                    let ghost outpre = out@;
                    out.push(x);
                    out.append(self);
                    proof {
                        assert((seq![x] + selfpre.drop_first())[0] == x);
                        assert((seq![x] + selfpre.drop_first()).drop_first() =~= selfpre.drop_first());
                        assert(seq_read_updates(selfpre, seq![x] + selfpre.drop_first(), mpre));
                        assert(outpre + (seq![x] + selfpre.drop_first()) =~= out@);
                        assert(seq_read_updates(elems0, out@, m0));
                    }
                    *self = out;
                    return Err(e);
                },
            }
        }
        proof {
            assert(seq_read_updates(Seq::<T>::empty(), Seq::<T>::empty(), reader@));
            assert(out@ + Seq::<T>::empty() =~= out@);
            assert(seq_read_updates(elems0, out@, m0));
        }
        *self = out;
        Ok(any)
    }
}

impl FortranDefaultReader {
    /// Reads one list-directed value into `val`.
    pub fn read_value<T: FortranRead>(&mut self, val: &mut T) -> (r: Result<bool, ReadErr>)
        requires
            old(self).wf(),
        ensures
            final(self).wf(),
            ({
                let (m2, r2) = old(val).default_read_model(old(self)@);
                final(self)@ == m2 && r == r2 && old(val).default_read_updates(
                    *final(val),
                    old(self)@,
                )
            }),
    {
        val.fortran_read_default(self)
    }
}

impl FortranIterReader {
    /// Format-directed reads of values are not performed; the destination
    /// is left alone.
    pub fn read_value<T: FortranRead>(&mut self, val: &mut T) -> (r: Result<bool, ReadErr>)
        ensures
            r == Ok::<bool, ReadErr>(false),
            *final(val) == *old(val),
            *final(self) == *old(self),
    {
        val.fortran_read(self)
    }
}

} // verus!
