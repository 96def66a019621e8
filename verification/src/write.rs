//! The writer driver: walks a format tree, emits its non-data leaves, and
//! renders one supplied value for each data leaf.

use vstd::prelude::*;
use crate::format::{FormatNode, FNode, is_interior, is_data_leaf};
use crate::iter::{FormatEvalIter, leaves_of, lemma_walk_yields_leaves};
use crate::types::FortranTag;

verus! {

/// Sticky options a walk carries: set by control leaves, consulted by the
/// rendering of later data leaves.
#[derive(Debug, Clone, Copy)]
pub struct WriterOpts {
    pub terminated: bool,
    pub suppress_newline: bool,
    pub scale: isize,
    pub radix: usize,
}

/// Everything the writer can fail with.
#[derive(Debug)]
pub enum WriteErr {
    /// A fault of the underlying sink. A string sink cannot fail, so the
    /// driver itself never produces this; adapters around fallible sinks
    /// report their faults under it.
    IoErr,
    /// More values were supplied than the pattern can place, even after one
    /// full reversion.
    DataWithoutFormat,
    /// A `Q` (remaining-characters) leaf is meaningful only on input.
    UnexpectedQInWrite,
    /// A value was asked for at a position that is not a data leaf.
    InvalidState,
    /// The data leaf does not accept values of this kind.
    InvalidEditing(FormatNode, FortranTag),
}

/// The view of a writer fault; the faulty leaf appears as its tree view.
pub ghost enum WErrV {
    IoErr,
    DataWithoutFormat,
    UnexpectedQInWrite,
    InvalidState,
    InvalidEditing(FNode, FortranTag),
}

impl View for WriteErr {
    type V = WErrV;

    open spec fn view(&self) -> WErrV {
        match self {
            WriteErr::IoErr => WErrV::IoErr,
            WriteErr::DataWithoutFormat => WErrV::DataWithoutFormat,
            WriteErr::UnexpectedQInWrite => WErrV::UnexpectedQInWrite,
            WriteErr::InvalidState => WErrV::InvalidState,
            WriteErr::InvalidEditing(n, t) => WErrV::InvalidEditing(n@, *t),
        }
    }
}

/// Where a constant-emitting sweep stopped.
#[derive(Debug, Clone, Copy, PartialEq, Eq, Structural)]
pub enum ConstStop {
    /// Poised just before a data leaf.
    AtData,
    /// The walk is exhausted.
    AtEnd,
    /// A terminate (`:`) leaf ended the statement early.
    Done,
    /// A `Q` leaf, which output rejects.
    FaultQ,
    /// An interior node escaped the walk; cannot happen.
    FaultState,
}

/// The full state of a writer, as contracts see it: the leaves still ahead,
/// the leaves of the whole pattern, the sticky options, and whether any
/// data was consumed or any leaf touched.
pub ghost struct WriterModel {
    pub rest: Seq<FNode>,
    pub all: Seq<FNode>,
    pub opts: WriterOpts,
    pub consumed: bool,
    pub reached: bool,
}

/// What one constant-emitting sweep leaves behind.
pub ghost struct RunOut {
    pub out: Seq<char>,
    pub rest: Seq<FNode>,
    pub opts: WriterOpts,
    pub reached: bool,
    pub stop: ConstStop,
}

/// The constant-emitting sweep: processes leaves in order until a data
/// leaf, the end of the walk, a terminate that applies, or a fault.
pub open spec fn run_writer(
    rest: Seq<FNode>,
    opts: WriterOpts,
    reached: bool,
    has_data: bool,
) -> RunOut
    decreases rest.len(),
{
    if rest.len() == 0 {
        RunOut { out: Seq::empty(), rest, opts, reached, stop: ConstStop::AtEnd }
    } else {
        let leaf = rest[0];
        if is_data_leaf(leaf) {
            RunOut { out: Seq::empty(), rest, opts, reached, stop: ConstStop::AtData }
        } else if leaf is RemainingChars {
            RunOut { out: Seq::empty(), rest, opts, reached, stop: ConstStop::FaultQ }
        } else if is_interior(leaf) {
            RunOut { out: Seq::empty(), rest, opts, reached, stop: ConstStop::FaultState }
        } else if leaf is Terminate && !has_data {
            RunOut {
                out: Seq::empty(),
                rest: rest.drop_first(),
                opts: WriterOpts { terminated: true, ..opts },
                reached: true,
                stop: ConstStop::Done,
            }
        } else {
            let opts2 = match leaf {
                FNode::Radix(r) => WriterOpts { radix: r, ..opts },
                FNode::Scale(p) => WriterOpts { scale: p, ..opts },
                FNode::SuppressNewLine => WriterOpts { suppress_newline: true, ..opts },
                _ => opts,
            };
            let emit: Seq<char> = match leaf {
                FNode::Literal(s) => s,
                FNode::NewLine => seq!['\n'],
                FNode::SkipChar => seq![' '],
                _ => Seq::empty(),
            };
            let tail = run_writer(rest.drop_first(), opts2, true, has_data);
            RunOut { out: emit + tail.out, ..tail }
        }
    }
}

/// What `write_constants` does to the model and the sink: one sweep, and at
/// the end of the walk either the closing newline policy or, when more
/// values are coming, one reversion.
pub open spec fn spec_write_constants(m: WriterModel, has_data: bool) -> (
    Seq<char>,
    WriterModel,
    Result<(), WriteErr>,
) {
    let r1 = run_writer(m.rest, m.opts, m.reached, has_data);
    let m1 = WriterModel { rest: r1.rest, opts: r1.opts, reached: r1.reached, ..m };
    match r1.stop {
        ConstStop::AtData => (r1.out, m1, Ok(())),
        ConstStop::Done => (r1.out, m1, Ok(())),
        ConstStop::FaultQ => (r1.out, m1, Err(WriteErr::UnexpectedQInWrite)),
        ConstStop::FaultState => (r1.out, m1, Err(WriteErr::InvalidState)),
        ConstStop::AtEnd => if !has_data {
            if !m.consumed && !r1.reached {
                (r1.out, m1, Ok(()))
            } else if !r1.opts.suppress_newline {
                (r1.out + seq!['\n'], m1, Ok(()))
            } else {
                (r1.out, m1, Ok(()))
            }
        } else if !m.consumed {
            (r1.out, m1, Err(WriteErr::DataWithoutFormat))
        } else {
            let r2 = run_writer(m.all, r1.opts, r1.reached, true);
            let m2 = WriterModel { rest: r2.rest, opts: r2.opts, reached: r2.reached, ..m };
            match r2.stop {
                ConstStop::AtData => (r1.out + r2.out, m2, Ok(())),
                ConstStop::FaultQ => (r1.out + r2.out, m2, Err(WriteErr::UnexpectedQInWrite)),
                ConstStop::FaultState => (r1.out + r2.out, m2, Err(WriteErr::InvalidState)),
                // a pattern whose walk held a data leaf stops there; this
                // arm stands for a walk without one
                _ => (r1.out + r2.out, m2, Err(WriteErr::DataWithoutFormat)),
            }
        },
    }
}

/// Classifies a leaf for output: `Ok(true)` exactly for the data leaves,
/// and a fault for `Q`, which output rejects.
pub fn requires_data(n: &FormatNode) -> (r: Result<bool, WriteErr>)
    requires
        !is_interior(n@),
    ensures
        n@ is RemainingChars ==> (r matches Err(e) && e@ == WErrV::UnexpectedQInWrite),
        !(n@ is RemainingChars) ==> r == Ok::<bool, WriteErr>(is_data_leaf(n@)),
{
    match n {
        FormatNode::NewLine => Ok(false),
        FormatNode::SkipChar => Ok(false),
        FormatNode::SuppressNewLine => Ok(false),
        FormatNode::Terminate => Ok(false),
        FormatNode::BlankControl(_) => Ok(false),
        FormatNode::AbsColumn(_) => Ok(false),
        FormatNode::RelColumn(_) => Ok(false),
        FormatNode::Radix(_) => Ok(false),
        FormatNode::Scale(_) => Ok(false),
        FormatNode::Literal(_) => Ok(false),
        FormatNode::Str(_) => Ok(true),
        FormatNode::Bool(_) => Ok(true),
        FormatNode::Int(..) => Ok(true),
        FormatNode::Oct(..) => Ok(true),
        FormatNode::Hex(..) => Ok(true),
        FormatNode::Real(..) => Ok(true),
        FormatNode::RemainingChars => Err(WriteErr::UnexpectedQInWrite),
        FormatNode::Group(_) => vstd::pervasive::unreached(),
        FormatNode::Repeat(..) => vstd::pervasive::unreached(),
    }
}

/// Appends the record terminator that ends a list-directed write.
pub fn end_record(dst: &mut String)
    ensures
        final(dst)@ == old(dst)@ + seq!['\n'],
{
    dst.push('\n');
}

/// A writer driving one format tree over a sink.
pub struct FortranIterWriter {
    iter: FormatEvalIter,
    pending: Option<FormatNode>,
    node: FormatNode,
    opts: WriterOpts,
    consumed_data: bool,
    reached_node: bool,
}

impl View for FortranIterWriter {
    type V = WriterModel;

    closed spec fn view(&self) -> WriterModel {
        WriterModel {
            rest: match self.pending {
                Some(n) => seq![n@] + self.iter.rem(),
                None => self.iter.rem(),
            },
            all: leaves_of(self.node@),
            opts: self.opts,
            consumed: self.consumed_data,
            reached: self.reached_node,
        }
    }
}

impl FortranIterWriter {
    /// A leaf held back between calls is never an interior node: the walk
    /// expands those.
    pub closed spec fn wf(&self) -> bool {
        &&& match self.pending {
            Some(n) => !is_interior(n@),
            None => true,
        }
        &&& forall|i: int| 0 <= i < self@.rest.len() ==> !is_interior(#[trigger] self@.rest[i])
    }

    /// A fresh writer at the start of the walk of `fmt`, with default
    /// sticky options and nothing consumed.
    pub fn new(fmt: &FormatNode) -> (w: FortranIterWriter)
        ensures
            w.wf(),
            w@.rest == leaves_of(fmt@),
            w@.all == leaves_of(fmt@),
            w@.opts == (WriterOpts {
                terminated: false,
                suppress_newline: false,
                scale: 0 as isize,
                radix: 10 as usize,
            }),
            !w@.consumed,
            !w@.reached,
    {
        let w = FortranIterWriter {
            opts: WriterOpts { terminated: false, suppress_newline: false, scale: 0, radix: 10 },
            consumed_data: false,
            reached_node: false,
            pending: None,
            node: fmt.clone(),
            iter: FormatEvalIter::new(fmt),
        };
        proof {
            lemma_walk_yields_leaves(fmt@);
        }
        w
    }


    /// Renders one value under the next data leaf of the walk.
    pub fn write_value<T: FortranWrite>(&mut self, dst: &mut String, val: &T) -> (r: Result<
        (),
        WriteErr,
    >)
        requires
            old(self).wf(),
        ensures
            final(self).wf(),
            ({
                let (m2, o2, r2) = val.fmt_write_spec(old(self)@);
                final(self)@ == m2 && final(dst)@ == old(dst)@ + o2 && (match (r, r2) {
                    (Ok(()), Ok(())) => true,
                    (Err(e), Err(v)) => e@ == v,
                    _ => false,
                })
            }),
    {
        val.fortran_write(dst, self)
    }

    /// A copy of the next leaf of the walk, which stays unconsumed.
    pub fn peek_leaf(&mut self) -> (r: Option<FormatNode>)
        requires
            old(self).wf(),
        ensures
            final(self).wf(),
            final(self)@ == old(self)@,
            old(self)@.rest.len() == 0 ==> r is None,
            old(self)@.rest.len() > 0 ==> (r matches Some(n) && n@ == old(self)@.rest[0]),
    {
        if self.pending.is_none() {
            self.pending = self.iter.next();
        }
        match &self.pending {
            Some(n) => {
                proof {
                    assert(self@.rest =~= old(self)@.rest);
                }
                Some(n.clone())
            },
            None => None,
        }
    }

    /// Places one externally rendered real number under the next data
    /// leaf, which must be a real descriptor; the field is right-aligned
    /// in the leaf's width, or all asterisks when it cannot fit. The
    /// digits themselves come from the caller: the driver does not touch
    /// floating point.
    pub fn write_rendered_real(&mut self, dst: &mut String, rendered: &str) -> (r: Result<
        (),
        WriteErr,
    >)
        requires
            old(self).wf(),
        ensures
            final(self).wf(),
            ({
                let (m2, o2, r2) = scalar_write_spec(
                    old(self)@,
                    |l: FNode, o: WriterOpts| real_leaf_field(rendered@, l, o),
                    FortranTag::Real8,
                );
                final(self)@ == m2 && final(dst)@ == old(dst)@ + o2 && (match (r, r2) {
                    (Ok(()), Ok(())) => true,
                    (Err(e), Err(v)) => e@ == v,
                    _ => false,
                })
            }),
    {
        let leaf = match self.take_leaf() {
            None => {
                return Err(WriteErr::InvalidState);
            },
            Some(l) => l,
        };
        let is_data = match requires_data(&leaf) {
            Ok(b) => b,
            Err(e) => {
                return Err(e);
            },
        };
        if !is_data {
            return Err(WriteErr::InvalidState);
        }
        match &leaf {
            FormatNode::Real(_f, ow, _od, _oe) => {
                match ow {
                    None => {
                        dst.append(rendered);
                    },
                    Some(w) => {
                        let len = rendered.unicode_len();
                        if len > *w {
                            push_pad(dst, '*', *w);
                        } else {
                            push_pad(dst, ' ', *w - len);
                            dst.append(rendered);
                        }
                    },
                }
            },
            _ => {
                return Err(WriteErr::InvalidEditing(leaf, FortranTag::Real8));
            },
        }
        self.mark_consumed();
        Ok(())
    }

    /// Records that a data leaf was consumed and rendered.
    fn mark_consumed(&mut self)
        requires
            old(self).wf(),
        ensures
            final(self).wf(),
            final(self)@ == (WriterModel { consumed: true, reached: true, ..old(self)@ }),
    {
        self.consumed_data = true;
        self.reached_node = true;
    }

    /// Takes the next leaf of the walk, the held-back one first.
    fn take_leaf(&mut self) -> (r: Option<FormatNode>)
        requires
            old(self).wf(),
        ensures
            final(self).wf(),
            final(self)@.all == old(self)@.all,
            final(self)@.opts == old(self)@.opts,
            final(self)@.consumed == old(self)@.consumed,
            final(self)@.reached == old(self)@.reached,
            final(self).pending is None,
            old(self)@.rest.len() == 0 ==> r is None && final(self)@.rest == old(self)@.rest,
            old(self)@.rest.len() > 0 ==> (r matches Some(n) && n@ == old(self)@.rest[0]
                && final(self)@.rest == old(self)@.rest.drop_first() && !is_interior(n@)),
    {
        let mut taken: Option<FormatNode> = None;
        core::mem::swap(&mut taken, &mut self.pending);
        match taken {
            Some(n) => {
                proof {
                    assert((seq![n@] + self.iter.rem()).drop_first() =~= self.iter.rem());
                }
                Some(n)
            },
            None => self.iter.next(),
        }
    }

    /// One constant-emitting sweep: emits every non-data leaf ahead,
    /// stopping before the next data leaf or at the end of the walk.
    #[verifier::loop_isolation(false)]
    #[verifier::rlimit(100)]
    fn advance_constants(&mut self, dst: &mut String, has_data: bool) -> (r: ConstStop)
        requires
            old(self).wf(),
        ensures
            final(self).wf(),
            final(self)@.all == old(self)@.all,
            final(self)@.consumed == old(self)@.consumed,
            ({
                let ro = run_writer(old(self)@.rest, old(self)@.opts, old(self)@.reached, has_data);
                r == ro.stop && final(dst)@ == old(dst)@ + ro.out && final(self)@.rest == ro.rest
                    && final(self)@.opts == ro.opts && final(self)@.reached == ro.reached
            }),
    {
        let ghost r0 = run_writer(old(self)@.rest, old(self)@.opts, old(self)@.reached, has_data);
        let ghost d0 = dst@.len() as int;
        proof {
            assert(dst@.skip(d0) =~= Seq::<char>::empty());
        }
        loop
            invariant
                self.wf(),
                self@.all == old(self)@.all,
                self@.consumed == old(self)@.consumed,
                d0 == old(dst)@.len(),
                dst@.subrange(0, d0) == old(dst)@,
                d0 <= dst@.len(),
                ({
                    let cur = run_writer(self@.rest, self@.opts, self@.reached, has_data);
                    r0.out == dst@.skip(d0) + cur.out && r0.rest == cur.rest && r0.opts == cur.opts
                        && r0.reached == cur.reached && r0.stop == cur.stop
                }),
            decreases self@.rest.len(),
        {
            let ghost mpre = self@;
            let ghost dpre = dst@;
            let leaf = match self.take_leaf() {
                None => {
                    proof {
                        assert(dst@ =~= old(dst)@ + dst@.skip(d0));
                        assert(r0.out =~= dst@.skip(d0));
                    }
                    return ConstStop::AtEnd;
                },
                Some(l) => l,
            };
            let is_data = match requires_data(&leaf) {
                Ok(b) => b,
                Err(_) => {
                    // `Q`: hold the leaf back unconsumed and report it
                    self.pending = Some(leaf);
                    proof {
                        assert(self@.rest =~= mpre.rest);
                        assert(dst@ =~= old(dst)@ + dst@.skip(d0));
                        assert(r0.out =~= dst@.skip(d0));
                    }
                    return ConstStop::FaultQ;
                },
            };
            if is_data {
                self.pending = Some(leaf);
                proof {
                    assert(self@.rest =~= mpre.rest);
                    assert(dst@ =~= old(dst)@ + dst@.skip(d0));
                    assert(r0.out =~= dst@.skip(d0));
                }
                return ConstStop::AtData;
            }
            match leaf {
                FormatNode::Radix(rr) => {
                    self.opts.radix = rr;
                },
                FormatNode::Scale(p) => {
                    self.opts.scale = p;
                },
                FormatNode::Literal(s) => {
                    dst.append(s.as_str());
                },
                FormatNode::NewLine => {
                    dst.push('\n');
                },
                FormatNode::SkipChar => {
                    dst.push(' ');
                },
                FormatNode::SuppressNewLine => {
                    self.opts.suppress_newline = true;
                },
                FormatNode::Terminate => {
                    if !has_data {
                        self.opts.terminated = true;
                        self.reached_node = true;
                        proof {
                            assert(dst@ =~= old(dst)@ + dst@.skip(d0));
                            assert(r0.out =~= dst@.skip(d0));
                        }
                        return ConstStop::Done;
                    }
                },
                FormatNode::BlankControl(_) => (),
                FormatNode::AbsColumn(_) => (),
                FormatNode::RelColumn(_) => (),
                _ => {
                    proof {
                        assert(false);
                    }
                },
            }
            self.reached_node = true;
            proof {
                let cur_pre = run_writer(mpre.rest, mpre.opts, mpre.reached, has_data);
                let cur_now = run_writer(self@.rest, self@.opts, self@.reached, has_data);
                assert(cur_pre.out =~= (dst@.skip(dpre.len() as int)) + cur_now.out);
                assert(dst@.skip(d0) =~= dpre.skip(d0) + dst@.skip(dpre.len() as int));
                assert(r0.out =~= dst@.skip(d0) + cur_now.out);
                assert(dst@.subrange(0, d0) =~= dpre.subrange(0, d0));
            }
        }
    }

    /// Emits every non-data leaf up to the next data leaf. At the end of
    /// the walk: with no more values coming, ends the statement (with its
    /// newline unless suppressed, and with nothing at all when the pattern
    /// was never entered); with values still coming, restarts the walk once
    /// (reversion), or reports `DataWithoutFormat` when no data leaf was
    /// ever consumed.
    pub fn write_constants(&mut self, dst: &mut String, has_data: bool) -> (r: Result<
        (),
        WriteErr,
    >)
        requires
            old(self).wf(),
        ensures
            final(self).wf(),
            final(self)@.all == old(self)@.all,
            final(self)@.consumed == old(self)@.consumed,
            ({
                let (o, m2, res) = spec_write_constants(old(self)@, has_data);
                final(dst)@ == old(dst)@ + o && final(self)@.rest == m2.rest && final(self)@.opts
                    == m2.opts && final(self)@.reached == m2.reached && (match (r, res) {
                    (Ok(()), Ok(())) => true,
                    (Err(e), Err(e2)) => e@ == e2@,
                    _ => false,
                })
            }),
    {
        let stop = self.advance_constants(dst, has_data);
        match stop {
            ConstStop::AtData => Ok(()),
            ConstStop::Done => Ok(()),
            ConstStop::FaultQ => Err(WriteErr::UnexpectedQInWrite),
            ConstStop::FaultState => Err(WriteErr::InvalidState),
            ConstStop::AtEnd => {
                if !has_data {
                    if !self.consumed_data && !self.reached_node {
                        return Ok(());
                    }
                    if !self.opts.suppress_newline {
                        dst.push('\n');
                    }
                    Ok(())
                } else {
                    if !self.consumed_data {
                        return Err(WriteErr::DataWithoutFormat);
                    }
                    let it = FormatEvalIter::new(&self.node);
                    self.iter = it;
                    self.pending = None;
                    proof {
                        lemma_walk_yields_leaves(self.node@);
                    }
                    let stop2 = self.advance_constants(dst, true);
                    match stop2 {
                        ConstStop::AtData => Ok(()),
                        ConstStop::FaultQ => Err(WriteErr::UnexpectedQInWrite),
                        ConstStop::FaultState => Err(WriteErr::InvalidState),
                        _ => Err(WriteErr::DataWithoutFormat),
                    }
                }
            },
        }
    }
}

/// `n` copies of one character.
pub open spec fn pad(c: char, n: nat) -> Seq<char> {
    Seq::new(n, |i: int| c)
}

/// The digit characters, `0`-`9` then lowercase `a`-`z`.
pub open spec fn base_digit_char(d: nat) -> char {
    if d < 10 {
        ((48 + d) as u8) as char
    } else {
        ((87 + d) as u8) as char
    }
}

/// The digits of `n` in the given base, most significant first.
pub open spec fn digits_base(n: nat, base: nat) -> Seq<char>
    decreases n,
        when 2 <= base
        via digits_base_dec
{
    if n < base {
        seq![base_digit_char(n)]
    } else {
        digits_base(n / base, base).push(base_digit_char(n % base))
    }
}

#[via_fn]
proof fn digits_base_dec(n: nat, base: nat) {
    if n >= base {
        vstd::arithmetic::div_mod::lemma_div_is_strictly_smaller(n as int, base as int);
    }
}

/// An integer field: an optional sign, zero padding up to the minimum
/// digit count, the digits, right-aligned in `w` columns; a field that
/// cannot fit is all asterisks.
pub open spec fn int_field(neg: bool, mag: nat, w: nat, om: Option<usize>, base: nat) -> Seq<
    char,
> {
    let sign: Seq<char> = if neg {
        seq!['-']
    } else {
        Seq::empty()
    };
    let digs = digits_base(mag, base);
    let zeros: nat = match om {
        Some(m) => if m > digs.len() + sign.len() {
            (m - digs.len() - sign.len()) as nat
        } else {
            0
        },
        None => 0,
    };
    let body = sign + pad('0', zeros) + digs;
    if body.len() > w {
        pad('*', w)
    } else {
        pad(' ', (w - body.len()) as nat) + body
    }
}

/// A logical field: `T` or `F` right-aligned in `w` columns.
pub open spec fn bool_field(v: bool, w: nat) -> Seq<char> {
    let c = if v {
        'T'
    } else {
        'F'
    };
    if w >= 1 {
        pad(' ', (w - 1) as nat).push(c)
    } else {
        seq![c]
    }
}

/// A character field: verbatim without a width; right-aligned and
/// asterisk-padded when shorter than the width; cut to the width when
/// longer.
pub open spec fn str_field(s: Seq<char>, ow: Option<usize>) -> Seq<char> {
    match ow {
        None => s,
        Some(w) => if s.len() <= w {
            pad('*', (w - s.len()) as nat) + s
        } else {
            s.subrange(0, w as int)
        },
    }
}

/// Appends `n` copies of `c`.
fn push_pad(dst: &mut String, c: char, n: usize)
    ensures
        final(dst)@ == old(dst)@ + pad(c, n as nat),
{
    let mut i: usize = 0;
    proof {
        assert(dst@ =~= dst@ + pad(c, 0));
    }
    while i < n
        invariant
            i <= n,
            dst@ == old(dst)@ + pad(c, i as nat),
        decreases n - i,
    {
        dst.push(c);
        proof {
            assert(old(dst)@ + pad(c, i as nat) + seq![c] =~= old(dst)@ + pad(c, (i + 1) as nat));
        }
        i += 1;
    }
}

/// Appends the digits of `mag` in the given base.
fn push_digits_base(dst: &mut String, mag: u64, base: u64)
    requires
        2 <= base <= 36,
    ensures
        final(dst)@ == old(dst)@ + digits_base(mag as nat, base as nat),
    decreases mag,
{
    proof {
        if mag >= base {
            vstd::arithmetic::div_mod::lemma_div_is_strictly_smaller(mag as int, base as int);
        }
    }
    if mag < base {
        let d = mag as u8;
        let ch = if d < 10 {
            (48 + d) as char
        } else {
            (87 + d) as char
        };
        dst.push(ch);
    } else {
        push_digits_base(dst, mag / base, base);
        let d = (mag % base) as u8;
        let ch = if d < 10 {
            (48 + d) as char
        } else {
            (87 + d) as char
        };
        dst.push(ch);
    }
}

/// Appends a whole integer field.
fn push_int_field(dst: &mut String, neg: bool, mag: u64, w: usize, om: Option<usize>, base: u64)
    requires
        2 <= base <= 36,
    ensures
        final(dst)@ == old(dst)@ + int_field(neg, mag as nat, w as nat, om, base as nat),
{
    let mut digs = String::new();
    push_digits_base(&mut digs, mag, base);
    let dlen = digs.as_str().unicode_len();
    let slen: usize = if neg {
        1
    } else {
        0
    };
    let zeros: usize = match om {
        Some(m) => if m > dlen && m - dlen > slen {
            m - dlen - slen
        } else {
            0
        },
        None => 0,
    };
    let mut body = String::new();
    if neg {
        body.push('-');
    }
    push_pad(&mut body, '0', zeros);
    body.append(digs.as_str());
    proof {
        let sign: Seq<char> = if neg {
            seq!['-']
        } else {
            Seq::empty()
        };
        assert(body@ =~= sign + pad('0', zeros as nat) + digs@);
    }
    let blen = body.as_str().unicode_len();
    if blen > w {
        push_pad(dst, '*', w);
    } else {
        push_pad(dst, ' ', w - blen);
        dst.append(body.as_str());
    }
}

/// The transition a scalar write makes: the next leaf is consumed; a
/// missing or non-data leaf is `InvalidState`, `Q` is rejected, a data
/// leaf of the wrong kind is `InvalidEditing`, and otherwise the rendered
/// field is emitted.
pub open spec fn scalar_write_spec(
    m: WriterModel,
    field_of: spec_fn(FNode, WriterOpts) -> Option<Seq<char>>,
    tag: FortranTag,
) -> (WriterModel, Seq<char>, Result<(), WErrV>) {
    if m.rest.len() == 0 {
        (m, Seq::empty(), Err(WErrV::InvalidState))
    } else {
        let leaf = m.rest[0];
        let m_adv = WriterModel { rest: m.rest.drop_first(), ..m };
        if leaf is RemainingChars {
            (m_adv, Seq::empty(), Err(WErrV::UnexpectedQInWrite))
        } else if !is_data_leaf(leaf) {
            (m_adv, Seq::empty(), Err(WErrV::InvalidState))
        } else {
            match field_of(leaf, m.opts) {
                Some(f) => (
                    WriterModel { rest: m.rest.drop_first(), consumed: true, reached: true, ..m },
                    f,
                    Ok(()),
                ),
                None => (m_adv, Seq::empty(), Err(WErrV::InvalidEditing(leaf, tag))),
            }
        }
    }
}

/// The field an integer value makes under a leaf: decimal under `I`, its
/// bit pattern in octal under `O` and in hexadecimal under `Z`; any other
/// data leaf rejects it.
pub open spec fn int_leaf_field(
    neg: bool,
    mag: nat,
    ubits: nat,
    defw: nat,
    leaf: FNode,
    opts: WriterOpts,
) -> Option<Seq<char>> {
    match leaf {
        FNode::Int(ow, om) => Some(
            int_field(
                neg,
                mag,
                match ow {
                    Some(w) => w as nat,
                    None => defw,
                },
                om,
                10,
            ),
        ),
        FNode::Oct(ow, om) => Some(
            int_field(
                false,
                ubits,
                match ow {
                    Some(w) => w as nat,
                    None => defw,
                },
                om,
                8,
            ),
        ),
        FNode::Hex(ow, om) => Some(
            int_field(
                false,
                ubits,
                match ow {
                    Some(w) => w as nat,
                    None => defw,
                },
                om,
                16,
            ),
        ),
        _ => None,
    }
}

/// The field a logical value makes: only under an `L` leaf.
pub open spec fn bool_leaf_field(v: bool, leaf: FNode, opts: WriterOpts) -> Option<Seq<char>> {
    match leaf {
        FNode::Bool(ow) => Some(
            bool_field(
                v,
                match ow {
                    Some(w) => w as nat,
                    None => 2,
                },
            ),
        ),
        _ => None,
    }
}

/// The field a character value makes: only under an `A` leaf.
pub open spec fn str_leaf_field(s: Seq<char>, leaf: FNode, opts: WriterOpts) -> Option<Seq<
    char,
>> {
    match leaf {
        FNode::Str(ow) => Some(str_field(s, ow)),
        _ => None,
    }
}

/// An already rendered real number under its leaf: verbatim without a
/// width; right-aligned within the width, or all asterisks when it cannot
/// fit.
pub open spec fn real_rendered_field(s: Seq<char>, ow: Option<usize>) -> Seq<char> {
    match ow {
        None => s,
        Some(w) => if s.len() > w {
            pad('*', w as nat)
        } else {
            pad(' ', (w - s.len()) as nat) + s
        },
    }
}

/// A rendered real number is accepted only under a real leaf.
pub open spec fn real_leaf_field(s: Seq<char>, leaf: FNode, opts: WriterOpts) -> Option<Seq<
    char,
>> {
    match leaf {
        FNode::Real(f, ow, od, oe) => Some(real_rendered_field(s, ow)),
        _ => None,
    }
}

/// A value the writer can place under a data leaf, and render in a
/// list-directed statement.
pub trait FortranWrite {
    /// The transition one format-directed write of this value makes on the
    /// writer and the sink.
    spec fn fmt_write_spec(&self, m: WriterModel) -> (WriterModel, Seq<char>, Result<(), WErrV>);

    /// The field a list-directed write of this value emits.
    spec fn default_field(&self) -> Seq<char>;

    /// Consumes the next data leaf and renders this value under it.
    fn fortran_write(&self, dst: &mut String, writer: &mut FortranIterWriter) -> (r: Result<
        (),
        WriteErr,
    >)
        requires
            old(writer).wf(),
        ensures
            final(writer).wf(),
            ({
                let (m2, o2, r2) = self.fmt_write_spec(old(writer)@);
                final(writer)@ == m2 && final(dst)@ == old(dst)@ + o2 && (match (r, r2) {
                    (Ok(()), Ok(())) => true,
                    (Err(e), Err(v)) => e@ == v,
                    _ => false,
                })
            }),
    ;

    /// Renders this value with its type's default width.
    fn fortran_write_default(&self, dst: &mut String) -> (r: Result<(), WriteErr>)
        ensures
            r is Ok,
            final(dst)@ == old(dst)@ + self.default_field(),
    ;
}

/// The shared body of the integer writes: takes the next leaf and renders
/// the value's sign, magnitude and bit pattern under it.
fn write_int_value(
    dst: &mut String,
    writer: &mut FortranIterWriter,
    neg: bool,
    mag: u64,
    ubits: u64,
    defw: usize,
    tag: FortranTag,
) -> (r: Result<(), WriteErr>)
    requires
        old(writer).wf(),
    ensures
        final(writer).wf(),
        ({
            let (m2, o2, r2) = scalar_write_spec(
                old(writer)@,
                |l: FNode, o: WriterOpts| int_leaf_field(
                    neg,
                    mag as nat,
                    ubits as nat,
                    defw as nat,
                    l,
                    o,
                ),
                tag,
            );
            final(writer)@ == m2 && final(dst)@ == old(dst)@ + o2 && (match (r, r2) {
                (Ok(()), Ok(())) => true,
                (Err(e), Err(v)) => e@ == v,
                _ => false,
            })
        }),
{
    let leaf = match writer.take_leaf() {
        None => {
            return Err(WriteErr::InvalidState);
        },
        Some(l) => l,
    };
    let is_data = match requires_data(&leaf) {
        Ok(b) => b,
        Err(e) => {
            return Err(e);
        },
    };
    if !is_data {
        return Err(WriteErr::InvalidState);
    }
    match &leaf {
        FormatNode::Int(ow, om) => {
            let w = match ow {
                Some(w) => *w,
                None => defw,
            };
            push_int_field(dst, neg, mag, w, *om, 10);
        },
        FormatNode::Oct(ow, om) => {
            let w = match ow {
                Some(w) => *w,
                None => defw,
            };
            push_int_field(dst, false, ubits, w, *om, 8);
        },
        FormatNode::Hex(ow, om) => {
            let w = match ow {
                Some(w) => *w,
                None => defw,
            };
            push_int_field(dst, false, ubits, w, *om, 16);
        },
        _ => {
            return Err(WriteErr::InvalidEditing(leaf, tag));
        },
    }
    writer.mark_consumed();
    Ok(())
}

/// The shared body of the logical write.
fn write_bool_value(dst: &mut String, writer: &mut FortranIterWriter, v: bool) -> (r: Result<
    (),
    WriteErr,
>)
    requires
        old(writer).wf(),
    ensures
        final(writer).wf(),
        ({
            let (m2, o2, r2) = scalar_write_spec(
                old(writer)@,
                |l: FNode, o: WriterOpts| bool_leaf_field(v, l, o),
                FortranTag::Bool,
            );
            final(writer)@ == m2 && final(dst)@ == old(dst)@ + o2 && (match (r, r2) {
                (Ok(()), Ok(())) => true,
                (Err(e), Err(v2)) => e@ == v2,
                _ => false,
            })
        }),
{
    let leaf = match writer.take_leaf() {
        None => {
            return Err(WriteErr::InvalidState);
        },
        Some(l) => l,
    };
    let is_data = match requires_data(&leaf) {
        Ok(b) => b,
        Err(e) => {
            return Err(e);
        },
    };
    if !is_data {
        return Err(WriteErr::InvalidState);
    }
    match &leaf {
        FormatNode::Bool(ow) => {
            let w = match ow {
                Some(w) => *w,
                None => 2,
            };
            let c = if v {
                'T'
            } else {
                'F'
            };
            if w >= 1 {
                push_pad(dst, ' ', w - 1);
            }
            dst.push(c);
        },
        _ => {
            return Err(WriteErr::InvalidEditing(leaf, FortranTag::Bool));
        },
    }
    writer.mark_consumed();
    Ok(())
}

impl FortranWrite for bool {
    open spec fn fmt_write_spec(&self, m: WriterModel) -> (
        WriterModel,
        Seq<char>,
        Result<(), WErrV>,
    ) {
        scalar_write_spec(
            m,
            |l: FNode, o: WriterOpts| bool_leaf_field(*self, l, o),
            FortranTag::Bool,
        )
    }

    open spec fn default_field(&self) -> Seq<char> {
        bool_field(*self, 7)
    }

    fn fortran_write(&self, dst: &mut String, writer: &mut FortranIterWriter) -> (r: Result<
        (),
        WriteErr,
    >) {
        write_bool_value(dst, writer, *self)
    }

    fn fortran_write_default(&self, dst: &mut String) -> (r: Result<(), WriteErr>) {
        push_pad(dst, ' ', 6);
        dst.push(if *self {
            'T'
        } else {
            'F'
        });
        proof {
            assert(pad(' ', 6).push(if *self {
                'T'
            } else {
                'F'
            }) =~= bool_field(*self, 7));
        }
        Ok(())
    }
}

impl FortranWrite for String {
    open spec fn fmt_write_spec(&self, m: WriterModel) -> (
        WriterModel,
        Seq<char>,
        Result<(), WErrV>,
    ) {
        scalar_write_spec(
            m,
            |l: FNode, o: WriterOpts| str_leaf_field(self@, l, o),
            FortranTag::Strin,
        )
    }

    open spec fn default_field(&self) -> Seq<char> {
        self@
    }

    #[verifier::rlimit(100)]
    fn fortran_write(&self, dst: &mut String, writer: &mut FortranIterWriter) -> (r: Result<
        (),
        WriteErr,
    >) {
        let leaf = match writer.take_leaf() {
            None => {
                return Err(WriteErr::InvalidState);
            },
            Some(l) => l,
        };
        let is_data = match requires_data(&leaf) {
            Ok(b) => b,
            Err(e) => {
                return Err(e);
            },
        };
        if !is_data {
            return Err(WriteErr::InvalidState);
        }
        match &leaf {
            FormatNode::Str(ow) => {
                match ow {
                    None => {
                        dst.append(self.as_str());
                    },
                    Some(w) => {
                        let len = self.as_str().unicode_len();
                        if len <= *w {
                            push_pad(dst, '*', *w - len);
                            dst.append(self.as_str());
                        } else {
                            dst.append(self.as_str().substring_char(0, *w));
                        }
                    },
                }
            },
            _ => {
                return Err(WriteErr::InvalidEditing(leaf, FortranTag::Strin));
            },
        }
        writer.mark_consumed();
        Ok(())
    }

    fn fortran_write_default(&self, dst: &mut String) -> (r: Result<(), WriteErr>) {
        dst.append(self.as_str());
        Ok(())
    }
}

/// The magnitude of an integer.
pub open spec fn sign_mag(v: int) -> nat {
    if v < 0 {
        (-v) as nat
    } else {
        v as nat
    }
}

/// The two's-complement bit pattern of `v` in the width whose modulus is
/// `pow`, as an unsigned value.
pub open spec fn twos(v: int, pow: int) -> nat {
    if v >= 0 {
        v as nat
    } else {
        (pow + v) as nat
    }
}

impl FortranWrite for u8 {
    open spec fn fmt_write_spec(&self, m: WriterModel) -> (
        WriterModel,
        Seq<char>,
        Result<(), WErrV>,
    ) {
        scalar_write_spec(
            m,
            |l: FNode, o: WriterOpts| int_leaf_field(
                false,
                *self as nat,
                *self as nat,
                5,
                l,
                o,
            ),
            FortranTag::Byte,
        )
    }

    open spec fn default_field(&self) -> Seq<char> {
        int_field(false, *self as nat, 5, None, 10)
    }

    fn fortran_write(&self, dst: &mut String, writer: &mut FortranIterWriter) -> (r: Result<
        (),
        WriteErr,
    >) {
        write_int_value(dst, writer, false, *self as u64, *self as u64, 5, FortranTag::Byte)
    }

    fn fortran_write_default(&self, dst: &mut String) -> (r: Result<(), WriteErr>) {
        push_int_field(dst, false, *self as u64, 5, None, 10);
        Ok(())
    }
}

impl FortranWrite for u16 {
    open spec fn fmt_write_spec(&self, m: WriterModel) -> (
        WriterModel,
        Seq<char>,
        Result<(), WErrV>,
    ) {
        scalar_write_spec(
            m,
            |l: FNode, o: WriterOpts| int_leaf_field(
                false,
                *self as nat,
                *self as nat,
                7,
                l,
                o,
            ),
            FortranTag::Uint2,
        )
    }

    open spec fn default_field(&self) -> Seq<char> {
        int_field(false, *self as nat, 7, None, 10)
    }

    fn fortran_write(&self, dst: &mut String, writer: &mut FortranIterWriter) -> (r: Result<
        (),
        WriteErr,
    >) {
        write_int_value(dst, writer, false, *self as u64, *self as u64, 7, FortranTag::Uint2)
    }

    fn fortran_write_default(&self, dst: &mut String) -> (r: Result<(), WriteErr>) {
        push_int_field(dst, false, *self as u64, 7, None, 10);
        Ok(())
    }
}

impl FortranWrite for u32 {
    open spec fn fmt_write_spec(&self, m: WriterModel) -> (
        WriterModel,
        Seq<char>,
        Result<(), WErrV>,
    ) {
        scalar_write_spec(
            m,
            |l: FNode, o: WriterOpts| int_leaf_field(
                false,
                *self as nat,
                *self as nat,
                12,
                l,
                o,
            ),
            FortranTag::Uint4,
        )
    }

    open spec fn default_field(&self) -> Seq<char> {
        int_field(false, *self as nat, 12, None, 10)
    }

    fn fortran_write(&self, dst: &mut String, writer: &mut FortranIterWriter) -> (r: Result<
        (),
        WriteErr,
    >) {
        write_int_value(dst, writer, false, *self as u64, *self as u64, 12, FortranTag::Uint4)
    }

    fn fortran_write_default(&self, dst: &mut String) -> (r: Result<(), WriteErr>) {
        push_int_field(dst, false, *self as u64, 12, None, 10);
        Ok(())
    }
}

impl FortranWrite for u64 {
    open spec fn fmt_write_spec(&self, m: WriterModel) -> (
        WriterModel,
        Seq<char>,
        Result<(), WErrV>,
    ) {
        scalar_write_spec(
            m,
            |l: FNode, o: WriterOpts| int_leaf_field(
                false,
                *self as nat,
                *self as nat,
                23,
                l,
                o,
            ),
            FortranTag::Uint8,
        )
    }

    open spec fn default_field(&self) -> Seq<char> {
        int_field(false, *self as nat, 23, None, 10)
    }

    fn fortran_write(&self, dst: &mut String, writer: &mut FortranIterWriter) -> (r: Result<
        (),
        WriteErr,
    >) {
        write_int_value(dst, writer, false, *self as u64, *self as u64, 23, FortranTag::Uint8)
    }

    fn fortran_write_default(&self, dst: &mut String) -> (r: Result<(), WriteErr>) {
        push_int_field(dst, false, *self as u64, 23, None, 10);
        Ok(())
    }
}

impl FortranWrite for i8 {
    open spec fn fmt_write_spec(&self, m: WriterModel) -> (
        WriterModel,
        Seq<char>,
        Result<(), WErrV>,
    ) {
        scalar_write_spec(
            m,
            |l: FNode, o: WriterOpts| int_leaf_field(
                *self < 0,
                sign_mag(*self as int),
                twos(*self as int, 256),
                5,
                l,
                o,
            ),
            FortranTag::Byte,
        )
    }

    open spec fn default_field(&self) -> Seq<char> {
        int_field(*self < 0, sign_mag(*self as int), 5, None, 10)
    }

    fn fortran_write(&self, dst: &mut String, writer: &mut FortranIterWriter) -> (r: Result<
        (),
        WriteErr,
    >) {
        let neg = *self < 0;
        let mag: u64 = if *self < 0 {
            (-(*self as i128)) as u64
        } else {
            *self as u64
        };
        let ubits: u64 = if *self >= 0 {
            *self as u64
        } else {
            ((256i128 + (*self as i128)) as u64)
        };
        proof {
            assert(mag as nat == sign_mag(*self as int));
            assert(ubits as nat == twos(*self as int, 256));
        }
        write_int_value(dst, writer, neg, mag, ubits, 5, FortranTag::Byte)
    }

    fn fortran_write_default(&self, dst: &mut String) -> (r: Result<(), WriteErr>) {
        let neg = *self < 0;
        let mag: u64 = if *self < 0 {
            (-(*self as i128)) as u64
        } else {
            *self as u64
        };
        proof {
            assert(mag as nat == sign_mag(*self as int));
        }
        push_int_field(dst, neg, mag, 5, None, 10);
        Ok(())
    }
}

impl FortranWrite for i16 {
    open spec fn fmt_write_spec(&self, m: WriterModel) -> (
        WriterModel,
        Seq<char>,
        Result<(), WErrV>,
    ) {
        scalar_write_spec(
            m,
            |l: FNode, o: WriterOpts| int_leaf_field(
                *self < 0,
                sign_mag(*self as int),
                twos(*self as int, 65536),
                7,
                l,
                o,
            ),
            FortranTag::Int2,
        )
    }

    open spec fn default_field(&self) -> Seq<char> {
        int_field(*self < 0, sign_mag(*self as int), 7, None, 10)
    }

    fn fortran_write(&self, dst: &mut String, writer: &mut FortranIterWriter) -> (r: Result<
        (),
        WriteErr,
    >) {
        let neg = *self < 0;
        let mag: u64 = if *self < 0 {
            (-(*self as i128)) as u64
        } else {
            *self as u64
        };
        let ubits: u64 = if *self >= 0 {
            *self as u64
        } else {
            ((65536i128 + (*self as i128)) as u64)
        };
        proof {
            assert(mag as nat == sign_mag(*self as int));
            assert(ubits as nat == twos(*self as int, 65536));
        }
        write_int_value(dst, writer, neg, mag, ubits, 7, FortranTag::Int2)
    }

    fn fortran_write_default(&self, dst: &mut String) -> (r: Result<(), WriteErr>) {
        let neg = *self < 0;
        let mag: u64 = if *self < 0 {
            (-(*self as i128)) as u64
        } else {
            *self as u64
        };
        proof {
            assert(mag as nat == sign_mag(*self as int));
        }
        push_int_field(dst, neg, mag, 7, None, 10);
        Ok(())
    }
}

impl FortranWrite for i32 {
    open spec fn fmt_write_spec(&self, m: WriterModel) -> (
        WriterModel,
        Seq<char>,
        Result<(), WErrV>,
    ) {
        scalar_write_spec(
            m,
            |l: FNode, o: WriterOpts| int_leaf_field(
                *self < 0,
                sign_mag(*self as int),
                twos(*self as int, 4294967296),
                12,
                l,
                o,
            ),
            FortranTag::Int4,
        )
    }

    open spec fn default_field(&self) -> Seq<char> {
        int_field(*self < 0, sign_mag(*self as int), 12, None, 10)
    }

    fn fortran_write(&self, dst: &mut String, writer: &mut FortranIterWriter) -> (r: Result<
        (),
        WriteErr,
    >) {
        let neg = *self < 0;
        let mag: u64 = if *self < 0 {
            (-(*self as i128)) as u64
        } else {
            *self as u64
        };
        let ubits: u64 = if *self >= 0 {
            *self as u64
        } else {
            ((4294967296i128 + (*self as i128)) as u64)
        };
        proof {
            assert(mag as nat == sign_mag(*self as int));
            assert(ubits as nat == twos(*self as int, 4294967296));
        }
        write_int_value(dst, writer, neg, mag, ubits, 12, FortranTag::Int4)
    }

    fn fortran_write_default(&self, dst: &mut String) -> (r: Result<(), WriteErr>) {
        let neg = *self < 0;
        let mag: u64 = if *self < 0 {
            (-(*self as i128)) as u64
        } else {
            *self as u64
        };
        proof {
            assert(mag as nat == sign_mag(*self as int));
        }
        push_int_field(dst, neg, mag, 12, None, 10);
        Ok(())
    }
}

impl FortranWrite for i64 {
    open spec fn fmt_write_spec(&self, m: WriterModel) -> (
        WriterModel,
        Seq<char>,
        Result<(), WErrV>,
    ) {
        scalar_write_spec(
            m,
            |l: FNode, o: WriterOpts| int_leaf_field(
                *self < 0,
                sign_mag(*self as int),
                twos(*self as int, 18446744073709551616),
                23,
                l,
                o,
            ),
            FortranTag::Int8,
        )
    }

    open spec fn default_field(&self) -> Seq<char> {
        int_field(*self < 0, sign_mag(*self as int), 23, None, 10)
    }

    fn fortran_write(&self, dst: &mut String, writer: &mut FortranIterWriter) -> (r: Result<
        (),
        WriteErr,
    >) {
        let neg = *self < 0;
        let mag: u64 = if *self < 0 {
            (-(*self as i128)) as u64
        } else {
            *self as u64
        };
        let ubits: u64 = if *self >= 0 {
            *self as u64
        } else {
            ((18446744073709551616i128 + (*self as i128)) as u64)
        };
        proof {
            assert(mag as nat == sign_mag(*self as int));
            assert(ubits as nat == twos(*self as int, 18446744073709551616));
        }
        write_int_value(dst, writer, neg, mag, ubits, 23, FortranTag::Int8)
    }

    fn fortran_write_default(&self, dst: &mut String) -> (r: Result<(), WriteErr>) {
        let neg = *self < 0;
        let mag: u64 = if *self < 0 {
            (-(*self as i128)) as u64
        } else {
            *self as u64
        };
        proof {
            assert(mag as nat == sign_mag(*self as int));
        }
        push_int_field(dst, neg, mag, 23, None, 10);
        Ok(())
    }
}

/// The transition a sequence of values makes: each element first lets the
/// constant sweep run (so separators, newlines and reversion are observed),
/// then writes itself; the first fault stops the fold.
pub open spec fn seq_write_spec<T: FortranWrite>(elems: Seq<T>, m: WriterModel) -> (
    WriterModel,
    Seq<char>,
    Result<(), WErrV>,
)
    decreases elems.len(),
{
    if elems.len() == 0 {
        (m, Seq::empty(), Ok(()))
    } else {
        let (o1, m1, r1) = spec_write_constants(m, true);
        match r1 {
            Err(e) => (m1, o1, Err(e@)),
            Ok(()) => {
                let (m2, o2, r2) = elems[0].fmt_write_spec(m1);
                match r2 {
                    Err(v) => (m2, o1 + o2, Err(v)),
                    Ok(()) => {
                        let (m3, o3, r3) = seq_write_spec(elems.drop_first(), m2);
                        (m3, o1 + o2 + o3, r3)
                    },
                }
            },
        }
    }
}

/// The default fields of a sequence of values, one after the other.
pub open spec fn seq_default_field<T: FortranWrite>(elems: Seq<T>) -> Seq<char>
    decreases elems.len(),
{
    if elems.len() == 0 {
        Seq::empty()
    } else {
        elems[0].default_field() + seq_default_field(elems.drop_first())
    }
}

impl<T: FortranWrite> FortranWrite for Vec<T> {
    open spec fn fmt_write_spec(&self, m: WriterModel) -> (
        WriterModel,
        Seq<char>,
        Result<(), WErrV>,
    ) {
        seq_write_spec(self@, m)
    }

    open spec fn default_field(&self) -> Seq<char> {
        seq_default_field(self@)
    }

    #[verifier::loop_isolation(false)]
    #[verifier::rlimit(100)]
    fn fortran_write(&self, dst: &mut String, writer: &mut FortranIterWriter) -> (r: Result<
        (),
        WriteErr,
    >) {
        let ghost m0 = writer@;
        let ghost d0 = dst@.len() as int;
        let mut i: usize = 0;
        proof {
            assert(self@.skip(0) =~= self@);
            assert(dst@.skip(d0) =~= Seq::<char>::empty());
        }
        while i < self.len()
            invariant
                i <= self@.len(),
                writer.wf(),
                d0 == old(dst)@.len(),
                dst@.subrange(0, d0) == old(dst)@,
                d0 <= dst@.len(),
                ({
                    let full = seq_write_spec(self@, m0);
                    let cur = seq_write_spec(self@.skip(i as int), writer@);
                    full.0 == cur.0 && full.1 == dst@.skip(d0) + cur.1 && full.2 == cur.2
                }),
            decreases self@.len() - i,
        {
            let ghost mpre = writer@;
            let ghost dpre = dst@;
            proof {
                assert(self@.skip(i as int)[0] == self@[i as int]);
                assert(self@.skip(i as int).drop_first() =~= self@.skip(i + 1));
            }
            match writer.write_constants(dst, true) {
                Ok(()) => {},
                Err(e) => {
                    proof {
                        assert(dst@ =~= old(dst)@ + dst@.skip(d0));
                        assert(seq_write_spec(self@, m0).1 =~= dst@.skip(d0));
                    }
                    return Err(e);
                },
            }
            let ghost dmid = dst@;
            match (&self[i]).fortran_write(dst, writer) {
                Ok(()) => {},
                Err(e) => {
                    proof {
                        assert(dst@ =~= old(dst)@ + dst@.skip(d0));
                        assert(seq_write_spec(self@, m0).1 =~= dst@.skip(d0));
                    }
                    return Err(e);
                },
            }
            proof {
                assert(dst@.skip(d0) =~= dpre.skip(d0) + (dmid.skip(dpre.len() as int) + dst@.skip(
                    dmid.len() as int,
                )));
                assert(dst@.subrange(0, d0) =~= dpre.subrange(0, d0));
                let full = seq_write_spec(self@, m0);
                let cur2 = seq_write_spec(self@.skip(i + 1), writer@);
                assert(full.1 =~= dst@.skip(d0) + cur2.1);
            }
            i += 1;
        }
        proof {
            assert(self@.skip(self@.len() as int) =~= Seq::<T>::empty());
            assert(dst@ =~= old(dst)@ + dst@.skip(d0));
            assert(seq_write_spec(self@, m0).1 =~= dst@.skip(d0));
        }
        Ok(())
    }

    #[verifier::loop_isolation(false)]
    fn fortran_write_default(&self, dst: &mut String) -> (r: Result<(), WriteErr>) {
        let ghost d0 = dst@.len() as int;
        let mut i: usize = 0;
        proof {
            assert(self@.skip(0) =~= self@);
            assert(dst@.skip(d0) =~= Seq::<char>::empty());
        }
        while i < self.len()
            invariant
                i <= self@.len(),
                d0 == old(dst)@.len(),
                dst@.subrange(0, d0) == old(dst)@,
                d0 <= dst@.len(),
                seq_default_field(self@) == dst@.skip(d0) + seq_default_field(
                    self@.skip(i as int),
                ),
            decreases self@.len() - i,
        {
            let ghost dpre = dst@;
            proof {
                assert(self@.skip(i as int)[0] == self@[i as int]);
                assert(self@.skip(i as int).drop_first() =~= self@.skip(i + 1));
            }
            match (&self[i]).fortran_write_default(dst) {
                Ok(()) => {},
                Err(_) => {},
            }
            proof {
                assert(dst@.skip(d0) =~= dpre.skip(d0) + dst@.skip(dpre.len() as int));
                assert(dst@.subrange(0, d0) =~= dpre.subrange(0, d0));
                assert(seq_default_field(self@) =~= dst@.skip(d0) + seq_default_field(
                    self@.skip(i + 1),
                ));
            }
            i += 1;
        }
        proof {
            assert(self@.skip(self@.len() as int) =~= Seq::<T>::empty());
            assert(dst@ =~= old(dst)@ + dst@.skip(d0));
            assert(seq_default_field(self@) =~= dst@.skip(d0));
        }
        Ok(())
    }
}

} // verus!
