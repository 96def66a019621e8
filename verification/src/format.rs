//! The format mini-language: its abstract syntax tree, a pretty-printer and
//! a recursive-descent parser.

use vstd::prelude::*;
use crate::scan::{
    is_format_ws, is_dec_digit, digit_val, exec_is_format_ws, exec_is_dec_digit, skip_ws,
    digits_end, digits_val, sp_digits, sp_quoted, sp_opt_width, sp_int_format, sp_real_format,
    sp_neg_scale, lemma_skip_ws_bounds, lemma_digits_end_bounds, lemma_sp_digits_bounds,
    lemma_quoted_bounds, lemma_opt_width_bounds, lemma_int_format_bounds,
    lemma_real_format_bounds, lemma_neg_scale_bounds,
};

verus! {

broadcast use
    vstd::std_specs::vec::group_vec_axioms,
    lemma_skip_ws_bounds,
    lemma_digits_end_bounds,
    lemma_sp_digits_bounds,
    lemma_quoted_bounds,
    lemma_opt_width_bounds,
    lemma_int_format_bounds,
    lemma_real_format_bounds,
    lemma_neg_scale_bounds;

/// The four kinds of real (floating-point) editing descriptors.
#[derive(Debug, Clone, Copy, PartialEq, Eq, Structural)]
pub enum RealFormat {
    F,
    E,
    D,
    G,
}

/// Blank-interpretation control: `B`, `BZ` or `BN`.
#[derive(Debug, Clone, Copy, PartialEq, Eq, Structural)]
pub enum BlankType {
    BZ,
    BN,
    B,
}

/// Tab (column control) descriptors: `T`, `TL` or `TR`.
#[derive(Debug, Clone, Copy, PartialEq, Eq, Structural)]
pub enum TabType {
    T,
    TL,
    TR,
}

/// One editing operation of the format language.
///
/// The tree produced by the parser is always a `Group`; `Repeat` and `Group`
/// are the only interior nodes, everything else is a leaf.
#[derive(Debug, PartialEq)]
pub enum FormatNode {
    NewLine,
    SkipChar,
    SuppressNewLine,
    RemainingChars,
    Terminate,
    BlankControl(BlankType),
    AbsColumn(usize),
    RelColumn(isize),
    Radix(usize),
    Scale(isize),

    Literal(String),

    Str(Option<usize>),
    Bool(Option<usize>),
    Int(Option<usize>, Option<usize>),
    Oct(Option<usize>, Option<usize>),
    Hex(Option<usize>, Option<usize>),
    Real(RealFormat, Option<usize>, Option<usize>, Option<usize>),

    Group(Vec<FormatNode>),
    Repeat(usize, Box<FormatNode>),
}

/// The mathematical shape of a format tree: the view of a [`FormatNode`].
/// `Group` children form a `Seq`, literals are character sequences.
pub ghost enum FNode {
    NewLine,
    SkipChar,
    SuppressNewLine,
    RemainingChars,
    Terminate,
    BlankControl(BlankType),
    AbsColumn(usize),
    RelColumn(isize),
    Radix(usize),
    Scale(isize),
    Literal(Seq<char>),
    Str(Option<usize>),
    Bool(Option<usize>),
    Int(Option<usize>, Option<usize>),
    Oct(Option<usize>, Option<usize>),
    Hex(Option<usize>, Option<usize>),
    Real(RealFormat, Option<usize>, Option<usize>, Option<usize>),
    Group(Seq<FNode>),
    Repeat(usize, Box<FNode>),
}

/// Views of a sequence of format nodes, in order.
pub open spec fn view_nodes(s: Seq<FormatNode>) -> Seq<FNode>
    decreases s, s.len(),
{
    if s.len() == 0 {
        Seq::empty()
    } else {
        view_nodes(s.drop_last()).push(s.last()@)
    }
}

impl View for FormatNode {
    type V = FNode;

    open spec fn view(&self) -> FNode
        decreases self, 0nat,
    {
        match self {
            FormatNode::NewLine => FNode::NewLine,
            FormatNode::SkipChar => FNode::SkipChar,
            FormatNode::SuppressNewLine => FNode::SuppressNewLine,
            FormatNode::RemainingChars => FNode::RemainingChars,
            FormatNode::Terminate => FNode::Terminate,
            FormatNode::BlankControl(b) => FNode::BlankControl(*b),
            FormatNode::AbsColumn(w) => FNode::AbsColumn(*w),
            FormatNode::RelColumn(w) => FNode::RelColumn(*w),
            FormatNode::Radix(x) => FNode::Radix(*x),
            FormatNode::Scale(x) => FNode::Scale(*x),
            FormatNode::Literal(s) => FNode::Literal(s@),
            FormatNode::Str(ow) => FNode::Str(*ow),
            FormatNode::Bool(ow) => FNode::Bool(*ow),
            FormatNode::Int(ow, od) => FNode::Int(*ow, *od),
            FormatNode::Oct(ow, od) => FNode::Oct(*ow, *od),
            FormatNode::Hex(ow, od) => FNode::Hex(*ow, *od),
            FormatNode::Real(f, ow, od, oe) => FNode::Real(*f, *ow, *od, *oe),
            FormatNode::Group(v) => FNode::Group(view_nodes(v@)),
            FormatNode::Repeat(n, b) => FNode::Repeat(*n, Box::new((**b)@)),
        }
    }
}

/// True of the two interior node kinds, which the evaluation walk expands
/// and never yields.
pub open spec fn is_interior(n: FNode) -> bool {
    n is Group || n is Repeat
}

/// True of the leaves that take or give one value.
pub open spec fn is_data_leaf(n: FNode) -> bool {
    n is Str || n is Bool || n is Int || n is Oct || n is Hex || n is Real
}

/// The view of a node sequence has the same length, and views each element.
pub proof fn lemma_view_nodes_index(s: Seq<FormatNode>)
    ensures
        view_nodes(s).len() == s.len(),
        forall|i: int| 0 <= i < s.len() ==> view_nodes(s)[i] == #[trigger] s[i]@,
    decreases s.len(),
{
    if s.len() > 0 {
        lemma_view_nodes_index(s.drop_last());
        assert(view_nodes(s) == view_nodes(s.drop_last()).push(s.last()@));
        assert forall|i: int| 0 <= i < s.len() implies view_nodes(s)[i] == #[trigger] s[i]@ by {
            if i < s.len() - 1 {
                assert(view_nodes(s)[i] == view_nodes(s.drop_last())[i]);
                assert(s.drop_last()[i] == s[i]);
            } else {
                assert(view_nodes(s)[i] == s.last()@);
            }
        }
    }
}

impl Clone for FormatNode {
    /// A clone has the same view (the same mathematical tree).
    #[verifier::loop_isolation(false)]
    fn clone(&self) -> (r: FormatNode)
        ensures
            r@ == self@,
        decreases self,
    {
        match self {
            FormatNode::NewLine => FormatNode::NewLine,
            FormatNode::SkipChar => FormatNode::SkipChar,
            FormatNode::SuppressNewLine => FormatNode::SuppressNewLine,
            FormatNode::RemainingChars => FormatNode::RemainingChars,
            FormatNode::Terminate => FormatNode::Terminate,
            FormatNode::BlankControl(b) => FormatNode::BlankControl(*b),
            FormatNode::AbsColumn(w) => FormatNode::AbsColumn(*w),
            FormatNode::RelColumn(w) => FormatNode::RelColumn(*w),
            FormatNode::Radix(x) => FormatNode::Radix(*x),
            FormatNode::Scale(x) => FormatNode::Scale(*x),
            FormatNode::Literal(s) => FormatNode::Literal(s.clone()),
            FormatNode::Str(ow) => FormatNode::Str(*ow),
            FormatNode::Bool(ow) => FormatNode::Bool(*ow),
            FormatNode::Int(ow, od) => FormatNode::Int(*ow, *od),
            FormatNode::Oct(ow, od) => FormatNode::Oct(*ow, *od),
            FormatNode::Hex(ow, od) => FormatNode::Hex(*ow, *od),
            FormatNode::Real(f, ow, od, oe) => FormatNode::Real(*f, *ow, *od, *oe),
            FormatNode::Group(v) => {
                let mut out: Vec<FormatNode> = Vec::new();
                let mut i: usize = 0;
                while i < v.len()
                    invariant
                        i <= v@.len(),
                        out@.len() == i,
                        forall|j: int| 0 <= j < i ==> out@[j]@ == #[trigger] v@[j]@,
                    decreases v@.len() - i,
                {
                    proof {
                        assert(*v == self->Group_0);
                        assert(decreases_to!(*self => self->Group_0));
                        assert(decreases_to!(*v => (*v)[i as int]));
                    }
                    let c = v[i].clone();
                    out.push(c);
                    i += 1;
                }
                proof {
                    lemma_view_nodes_index(out@);
                    lemma_view_nodes_index(v@);
                    assert forall|j: int|
                        0 <= j < v@.len() implies view_nodes(out@)[j] == view_nodes(v@)[j] by {
                        assert(out@[j]@ == v@[j]@);
                    }
                    assert(view_nodes(out@) =~= view_nodes(v@));
                }
                FormatNode::Group(out)
            },
            FormatNode::Repeat(n, b) => {
                let c = (**b).clone();
                FormatNode::Repeat(*n, Box::new(c))
            },
        }
    }
}

/// The character printed for a decimal digit value.
pub open spec fn dec_digit_char(d: nat) -> char {
    ((48 + d) as u8) as char
}

/// Decimal print of a natural number, most significant digit first.
pub open spec fn print_nat(n: nat) -> Seq<char>
    decreases n,
{
    if n < 10 {
        seq![dec_digit_char(n)]
    } else {
        print_nat(n / 10).push(dec_digit_char(n % 10))
    }
}

/// Decimal print of an integer, with a leading `-` when negative.
pub open spec fn print_int(x: int) -> Seq<char> {
    if x < 0 {
        seq!['-'] + print_nat((-x) as nat)
    } else {
        print_nat(x as nat)
    }
}

/// Literal text as it appears between quotes: every `'` doubled.
pub open spec fn esc_quotes(s: Seq<char>) -> Seq<char>
    decreases s.len(),
{
    if s.len() == 0 {
        Seq::empty()
    } else if s[0] == '\'' {
        seq!['\'', '\''] + esc_quotes(s.drop_first())
    } else {
        seq![s[0]] + esc_quotes(s.drop_first())
    }
}

/// The editing letter of a real descriptor.
pub open spec fn real_letter(f: RealFormat) -> char {
    match f {
        RealFormat::F => 'F',
        RealFormat::E => 'E',
        RealFormat::D => 'D',
        RealFormat::G => 'G',
    }
}

/// The canonical print of one format node.
pub open spec fn print_node(n: FNode) -> Seq<char>
    decreases n,
{
    match n {
        FNode::NewLine => seq!['/'],
        FNode::SkipChar => seq!['X'],
        FNode::SuppressNewLine => seq!['$'],
        FNode::Terminate => seq![':'],
        FNode::RemainingChars => seq!['Q'],
        FNode::BlankControl(BlankType::B) => seq!['B'],
        FNode::BlankControl(BlankType::BZ) => seq!['B', 'Z'],
        FNode::BlankControl(BlankType::BN) => seq!['B', 'N'],
        FNode::AbsColumn(w) => seq!['T'] + print_nat(w as nat),
        FNode::RelColumn(w) => if w >= 0 {
            seq!['T', 'R'] + print_nat(w as nat)
        } else {
            seq!['T', 'L'] + print_nat((-(w as int)) as nat)
        },
        FNode::Radix(x) => print_nat(x as nat) + seq!['R'],
        FNode::Scale(x) => print_int(x as int) + seq!['P'],
        FNode::Literal(s) => seq!['\''] + esc_quotes(s) + seq!['\''],
        FNode::Str(ow) => match ow {
            None => seq!['A'],
            Some(w) => seq!['A'] + print_nat(w as nat),
        },
        FNode::Bool(ow) => match ow {
            None => seq!['L'],
            Some(w) => seq!['L'] + print_nat(w as nat),
        },
        FNode::Int(ow, od) => print_int_format('I', ow, od),
        FNode::Oct(ow, od) => print_int_format('O', ow, od),
        FNode::Hex(ow, od) => print_int_format('Z', ow, od),
        FNode::Real(f, ow, od, oe) => match (ow, od, oe) {
            (None, _, _) => seq![real_letter(f)],
            (Some(w), None, _) => seq![real_letter(f)] + print_nat(w as nat),
            (Some(w), Some(d), None) => seq![real_letter(f)] + print_nat(w as nat) + seq!['.']
                + print_nat(d as nat),
            (Some(w), Some(d), Some(e)) => seq![real_letter(f)] + print_nat(w as nat) + seq!['.']
                + print_nat(d as nat) + seq!['E'] + print_nat(e as nat),
        },
        FNode::Group(v) => seq!['('] + print_items(v, true, false) + seq![')'],
        FNode::Repeat(k, b) => print_nat(k as nat) + print_node(*b),
    }
}

/// The optional width / minimum-digit tail of an integer descriptor.
pub open spec fn print_int_digits(ow: Option<usize>, od: Option<usize>) -> Seq<char> {
    match (ow, od) {
        (None, _) => Seq::empty(),
        (Some(w), None) => print_nat(w as nat),
        (Some(w), Some(d)) => print_nat(w as nat) + seq!['.'] + print_nat(d as nat),
    }
}

/// The print of an integer descriptor with its letter and optional
/// width / minimum-digit parts.
pub open spec fn print_int_format(letter: char, ow: Option<usize>, od: Option<usize>) -> Seq<
    char,
> {
    seq![letter] + print_int_digits(ow, od)
}

/// The print of the members of a group, with `, ` between items except
/// around newline (`/`) items.
pub open spec fn print_items(v: Seq<FNode>, skip_comma: bool, was_slash: bool) -> Seq<char>
    decreases v,
{
    if v.len() == 0 {
        Seq::empty()
    } else {
        let n = v[0];
        let sc = skip_comma || n is NewLine;
        let sep: Seq<char> = if !sc && !was_slash {
            seq![',', ' ']
        } else {
            Seq::empty()
        };
        sep + print_node(n) + print_items(v.drop_first(), false, n is NewLine)
    }
}

/// Appends the decimal print of `n`.
pub fn push_usize(out: &mut String, n: usize)
    ensures
        final(out)@ == old(out)@ + print_nat(n as nat),
    decreases n,
{
    if n < 10 {
        out.push((48u8 + (n as u8)) as char);
    } else {
        push_usize(out, n / 10);
        out.push((48u8 + ((n % 10) as u8)) as char);
    }
}

/// Appends the literal text with every quote doubled.
fn push_escaped(out: &mut String, s: &String)
    ensures
        final(out)@ == old(out)@ + esc_quotes(s@),
{
    let n = s.unicode_len();
    let mut i: usize = 0;
    proof {
        assert(s@.skip(0) =~= s@);
    }
    while i < n
        invariant
            n == s@.len(),
            i <= n,
            old(out)@ + esc_quotes(s@) == out@ + esc_quotes(s@.skip(i as int)),
        decreases n - i,
    {
        let c = s.as_str().get_char(i);
        if c == '\'' {
            out.push('\'');
            out.push('\'');
        } else {
            out.push(c);
        }
        proof {
            assert(s@.skip(i as int).drop_first() =~= s@.skip(i + 1));
            assert(s@.skip(i as int)[0] == s@[i as int]);
        }
        i += 1;
    }
    proof {
        assert(esc_quotes(s@.skip(n as int)) == Seq::<char>::empty());
        assert(out@ =~= old(out)@ + esc_quotes(s@));
    }
}

impl FormatNode {
    /// Appends the canonical print of this node to `out`.
    ///
    /// Re-parsing the canonical print of a parsed format yields the same
    /// tree; whitespace and separators are normalized.
    #[verifier::loop_isolation(false)]
    #[verifier::rlimit(100)]
    pub fn write_string(&self, out: &mut String)
        ensures
            final(out)@ == old(out)@ + print_node(self@),
        decreases self,
    {
        match self {
            FormatNode::NewLine => out.push('/'),
            FormatNode::SkipChar => out.push('X'),
            FormatNode::SuppressNewLine => out.push('$'),
            FormatNode::Terminate => out.push(':'),
            FormatNode::RemainingChars => out.push('Q'),
            FormatNode::BlankControl(b) => {
                out.push('B');
                match b {
                    BlankType::B => (),
                    BlankType::BZ => out.push('Z'),
                    BlankType::BN => out.push('N'),
                }
            },
            FormatNode::AbsColumn(w) => {
                out.push('T');
                push_usize(out, *w);
            },
            FormatNode::RelColumn(w) => {
                out.push('T');
                if *w >= 0 {
                    out.push('R');
                    push_usize(out, *w as usize);
                } else {
                    out.push('L');
                    push_usize(out, (-(*w as i128)) as usize);
                }
            },
            FormatNode::Radix(x) => {
                push_usize(out, *x);
                out.push('R');
            },
            FormatNode::Scale(x) => {
                if *x < 0 {
                    out.push('-');
                    push_usize(out, (-(*x as i128)) as usize);
                } else {
                    push_usize(out, *x as usize);
                }
                out.push('P');
            },
            FormatNode::Literal(s) => {
                out.push('\'');
                push_escaped(out, s);
                out.push('\'');
            },
            FormatNode::Str(ow) => {
                out.push('A');
                if let Some(w) = ow {
                    push_usize(out, *w);
                }
            },
            FormatNode::Bool(ow) => {
                out.push('L');
                if let Some(w) = ow {
                    push_usize(out, *w);
                }
            },
            FormatNode::Int(ow, od) => {
                out.push('I');
                Self::push_int_format(out, ow, od);
            },
            FormatNode::Oct(ow, od) => {
                out.push('O');
                Self::push_int_format(out, ow, od);
            },
            FormatNode::Hex(ow, od) => {
                out.push('Z');
                Self::push_int_format(out, ow, od);
            },
            FormatNode::Real(f, ow, od, oe) => {
                match f {
                    RealFormat::F => out.push('F'),
                    RealFormat::E => out.push('E'),
                    RealFormat::D => out.push('D'),
                    RealFormat::G => out.push('G'),
                }
                match (ow, od, oe) {
                    (None, _, _) => (),
                    (Some(w), None, _) => push_usize(out, *w),
                    (Some(w), Some(d), None) => {
                        push_usize(out, *w);
                        out.push('.');
                        push_usize(out, *d);
                    },
                    (Some(w), Some(d), Some(e)) => {
                        push_usize(out, *w);
                        out.push('.');
                        push_usize(out, *d);
                        out.push('E');
                        push_usize(out, *e);
                    },
                }
            },
            FormatNode::Group(v) => {
                out.push('(');
                let ghost items = view_nodes(v@);
                proof {
                    lemma_view_nodes_index(v@);
                }
                let mut skip_comma = true;
                let mut was_slash = false;
                let mut i: usize = 0;
                proof {
                    assert(items.skip(0) =~= items);
                    assert(self@ == FNode::Group(items));
                    assert(old(out)@ + print_node(self@) =~= out@ + print_items(items, true, false)
                        + seq![')']);
                }
                while i < v.len()
                    invariant
                        i <= v@.len(),
                        skip_comma == (i == 0),
                        was_slash == (i > 0 && items[i - 1] is NewLine),
                        old(out)@ + print_node(self@) == out@ + print_items(
                            items.skip(i as int),
                            skip_comma,
                            was_slash,
                        ) + seq![')'],
                    decreases v@.len() - i,
                {
                    proof {
                        assert(*v == self->Group_0);
                        assert(decreases_to!(*self => self->Group_0));
                        assert(decreases_to!(*v => (*v)[i as int]));
                        assert(items[i as int] == v@[i as int]@);
                        assert(items.skip(i as int)[0] == items[i as int]);
                        assert(items.skip(i as int).drop_first() =~= items.skip(i + 1));
                    }
                    let node = &v[i];
                    let node_is_nl = matches!(node, FormatNode::NewLine);
                    proof {
                        assert(node_is_nl == (items[i as int] is NewLine));
                    }
                    if node_is_nl {
                        skip_comma = true;
                    }
                    if !skip_comma && !was_slash {
                        out.push(',');
                        out.push(' ');
                    }
                    skip_comma = false;
                    was_slash = node_is_nl;
                    node.write_string(out);
                    i += 1;
                }
                proof {
                    assert(items.skip(v@.len() as int) =~= Seq::<FNode>::empty());
                }
                out.push(')');
            },
            FormatNode::Repeat(k, b) => {
                push_usize(out, *k);
                (**b).write_string(out);
            },
        }
    }

    /// Appends the optional width and minimum-digit parts of an integer
    /// descriptor.
    fn push_int_format(out: &mut String, ow: &Option<usize>, od: &Option<usize>)
        ensures
            final(out)@ == old(out)@ + print_int_digits(*ow, *od),
    {
        match (ow, od) {
            (None, _) => (),
            (Some(w), None) => push_usize(out, *w),
            (Some(w), Some(d)) => {
                push_usize(out, *w);
                out.push('.');
                push_usize(out, *d);
            },
        }
    }

    /// The canonical print of this node as a fresh string.
    pub fn to_string(&self) -> (r: String)
        ensures
            r@ == print_node(self@),
    {
        let mut rv = String::new();
        self.write_string(&mut rv);
        rv
    }
}

/// Everything the parser can reject, each with the number of characters it
/// had consumed when the fault was found.
#[derive(Debug, Clone, Copy, PartialEq, Eq, Structural)]
pub enum ParseError {
    UnexpectedEOF(usize),
    ExpectedNumber(usize),
    ExpectedNonZero(usize),
    ExpectedParen(usize),
    ExpectedComma(usize),
    ExpectedScaleControl(usize),
    NumberTooBig(usize),
    RepeatingDollar(usize),
    RepeatingColon(usize),
    RepeatingStr(usize),
    RepeatingBlankControl(usize),
    RepeatingTab(usize),
    RepeatingQ(usize),
    ExtraComma(usize),
    MissingScale(usize),
    UnexpectedChar(usize, char),
    MissingRadix(usize),
    RadixOutOfRange(usize, usize),
}

/// Wraps a node in `Repeat` when a repeat count was given; a count of zero
/// is rejected.
pub open spec fn sp_mk_repeating(repeat: Option<usize>, n: FNode, pos: int) -> Result<
    FNode,
    ParseError,
> {
    match repeat {
        None => Ok(n),
        Some(r) => if r == 0 {
            Err(ParseError::ExpectedNonZero(pos as usize))
        } else {
            Ok(FNode::Repeat(r, Box::new(n)))
        },
    }
}

/// The real descriptor named by a letter.
pub open spec fn real_of_char(c: char) -> RealFormat {
    if c == 'F' || c == 'f' {
        RealFormat::F
    } else if c == 'E' || c == 'e' {
        RealFormat::E
    } else if c == 'D' || c == 'd' {
        RealFormat::D
    } else {
        RealFormat::G
    }
}

/// A whole format: optional whitespace, then a parenthesized group.
pub open spec fn sp_parse(s: Seq<char>, i: int) -> Result<(FNode, int), ParseError>
    decreases s.len() - i, 0nat,
        when 0 <= i <= s.len()
{
    let j = skip_ws(s, i);
    if j < s.len() {
        if s[j] == '(' {
            sp_group_body(s, j + 1, Seq::empty(), false, false)
        } else {
            Err(ParseError::ExpectedParen((j + 1) as usize))
        }
    } else {
        Err(ParseError::ExpectedParen(j as usize))
    }
}

/// After an item: skip whitespace and take at most one separating comma,
/// then continue with the group body.
pub open spec fn sp_group_tail(
    s: Seq<char>,
    t: int,
    acc: Seq<FNode>,
    was_slash: bool,
) -> Result<(FNode, int), ParseError>
    decreases s.len() - t, 2nat,
        when 0 <= t <= s.len()
{
    let u = skip_ws(s, t);
    if u < s.len() && s[u] == ',' {
        sp_group_body(s, u + 1, acc, true, was_slash)
    } else {
        sp_group_body(s, u, acc, false, was_slash)
    }
}

/// The members of a group, read one item per step from position `i`, with
/// `acc` the items already read and the comma / slash context of the
/// previous step.
pub open spec fn sp_group_body(
    s: Seq<char>,
    i: int,
    acc: Seq<FNode>,
    was_comma: bool,
    was_slash: bool,
) -> Result<(FNode, int), ParseError>
    decreases s.len() - i, 1nat,
        when 0 <= i <= s.len()
{
    let j = skip_ws(s, i);
    if j >= s.len() {
        Err(ParseError::UnexpectedEOF(j as usize))
    } else {
        let p = s[j];
        if p != ')' && p != '/' && acc.len() != 0 && !(was_comma || was_slash) {
            Err(ParseError::ExpectedComma(j as usize))
        } else if p == '-' {
            match sp_neg_scale(s, j) {
                Err(x) => Err(x),
                Ok((v, t)) => sp_group_tail(s, t, acc.push(FNode::Scale(v)), false),
            }
        } else {
            match sp_digits(s, j) {
                Err(x) => Err(x),
                Ok((repeat, k)) => {
                    let k2 = skip_ws(s, k);
                    if k2 < s.len() && s[k2] == '(' {
                        if repeat == Some(0usize) {
                            Err(ParseError::ExpectedNonZero(k2 as usize))
                        } else {
                            match sp_parse(s, k2) {
                                Err(x) => Err(x),
                                Ok((g, m)) => {
                                    let item = match repeat {
                                        None => g,
                                        Some(r) => FNode::Repeat(r, Box::new(g)),
                                    };
                                    // a parsed group always ends past its own
                                    // open paren and within the input, so the
                                    // bound below never changes `m`
                                    let mm = if k2 + 1 <= m && m <= s.len() {
                                        m
                                    } else {
                                        k2 + 1
                                    };
                                    sp_group_tail(s, mm, acc.push(item), false)
                                },
                            }
                        }
                    } else if k2 >= s.len() {
                        Err(ParseError::UnexpectedEOF(k2 as usize))
                    } else {
                        sp_group_item(s, k2, acc, was_comma, was_slash, repeat)
                    }
                },
            }
        }
    }
}

/// One item of a group body, dispatched on the descriptor character at
/// position `j`, with any repeat count already read.
pub open spec fn sp_group_item(
    s: Seq<char>,
    j: int,
    acc: Seq<FNode>,
    was_comma: bool,
    was_slash: bool,
    repeat: Option<usize>,
) -> Result<(FNode, int), ParseError>
    decreases s.len() - j, 0nat,
        when 0 <= j < s.len()
{
    let c = s[j];
    let cur = j + 1;
    if c == ')' {
        if was_comma {
            Err(ParseError::ExtraComma(cur as usize))
        } else {
            Ok((FNode::Group(acc), cur))
        }
    } else if c == ',' {
        if acc.len() == 0 && !was_comma {
            sp_group_body(s, cur, acc, true, was_slash)
        } else {
            Err(ParseError::ExtraComma(cur as usize))
        }
    } else {
        match sp_item_node(s, j, repeat) {
            Err(x) => Err(x),
            Ok(((nd, sl), t)) => {
                // a finished item never ends before its own descriptor
                // character nor past the input, so the bound below never
                // changes `t`
                let tt = if cur <= t && t <= s.len() {
                    t
                } else {
                    cur
                };
                sp_group_tail(s, tt, acc.push(nd), sl)
            },
        }
    }
}

/// One descriptor item other than a group, a closing parenthesis or a
/// comma: the finished node, whether it separates like a slash, and the
/// position after it.
#[verifier::opaque]
pub open spec fn sp_item_node(s: Seq<char>, j: int, repeat: Option<usize>) -> Result<
    ((FNode, bool), int),
    ParseError,
> {
    let c = s[j];
    let cur = j + 1;
    if c == '/' {
        match sp_mk_repeating(repeat, FNode::NewLine, cur) {
            Err(x) => Err(x),
            Ok(nd) => Ok(((nd, true), cur)),
        }
    } else if c == '$' {
        if repeat is Some {
            Err(ParseError::RepeatingDollar(cur as usize))
        } else {
            Ok(((FNode::SuppressNewLine, false), cur))
        }
    } else if c == ':' {
        if repeat is Some {
            Err(ParseError::RepeatingColon(cur as usize))
        } else {
            Ok(((FNode::Terminate, false), cur))
        }
    } else if c == 'X' || c == 'x' {
        match sp_mk_repeating(repeat, FNode::SkipChar, cur) {
            Err(x) => Err(x),
            Ok(nd) => Ok(((nd, false), cur)),
        }
    } else if c == 'Q' || c == 'q' {
        if repeat is Some {
            Err(ParseError::RepeatingQ(cur as usize))
        } else {
            Ok(((FNode::RemainingChars, false), cur))
        }
    } else if c == 'I' || c == 'i' {
        match sp_int_format(s, cur) {
            Err(x) => Err(x),
            Ok(((w, d), m)) => match sp_mk_repeating(repeat, FNode::Int(w, d), m) {
                Err(x) => Err(x),
                Ok(nd) => Ok(((nd, false), m)),
            },
        }
    } else if c == 'Z' || c == 'z' {
        match sp_int_format(s, cur) {
            Err(x) => Err(x),
            Ok(((w, d), m)) => match sp_mk_repeating(repeat, FNode::Hex(w, d), m) {
                Err(x) => Err(x),
                Ok(nd) => Ok(((nd, false), m)),
            },
        }
    } else if c == 'O' || c == 'o' {
        match sp_int_format(s, cur) {
            Err(x) => Err(x),
            Ok(((w, d), m)) => match sp_mk_repeating(repeat, FNode::Oct(w, d), m) {
                Err(x) => Err(x),
                Ok(nd) => Ok(((nd, false), m)),
            },
        }
    } else if c == 'L' || c == 'l' {
        match sp_opt_width(s, cur) {
            Err(x) => Err(x),
            Ok((w, m)) => match sp_mk_repeating(repeat, FNode::Bool(w), m) {
                Err(x) => Err(x),
                Ok(nd) => Ok(((nd, false), m)),
            },
        }
    } else if c == 'A' || c == 'a' {
        match sp_opt_width(s, cur) {
            Err(x) => Err(x),
            Ok((w, m)) => match sp_mk_repeating(repeat, FNode::Str(w), m) {
                Err(x) => Err(x),
                Ok(nd) => Ok(((nd, false), m)),
            },
        }
    } else if c == '\'' || c == '"' {
        if repeat is Some {
            Err(ParseError::RepeatingStr(cur as usize))
        } else {
            match sp_quoted(s, cur, c) {
                Err(x) => Err(x),
                Ok((t, m)) => Ok(((FNode::Literal(t), false), m)),
            }
        }
    } else if c == 'F' || c == 'f' || c == 'E' || c == 'e' || c == 'D' || c == 'd' || c == 'G' || c
        == 'g' {
        match sp_real_format(s, cur) {
            Err(x) => Err(x),
            Ok(((w, d, ex), m)) => match sp_mk_repeating(
                repeat,
                FNode::Real(real_of_char(c), w, d, ex),
                m,
            ) {
                Err(x) => Err(x),
                Ok(nd) => Ok(((nd, false), m)),
            },
        }
    } else if c == 'P' || c == 'p' {
        match repeat {
            None => Err(ParseError::MissingScale(cur as usize)),
            Some(r) => if r > isize::MAX as usize {
                Err(ParseError::NumberTooBig(cur as usize))
            } else {
                Ok(((FNode::Scale(r as isize), false), cur))
            },
        }
    } else if c == 'R' || c == 'r' {
        match repeat {
            None => Err(ParseError::MissingRadix(cur as usize)),
            Some(r) => if 2 <= r && r <= 36 {
                Ok(((FNode::Radix(r), false), cur))
            } else {
                Err(ParseError::RadixOutOfRange(cur as usize, r))
            },
        }
    } else if c == 'B' || c == 'b' {
        if repeat is Some {
            Err(ParseError::RepeatingBlankControl(cur as usize))
        } else if cur < s.len() && (s[cur] == 'N' || s[cur] == 'n') {
            Ok(((FNode::BlankControl(BlankType::BN), false), cur + 1))
        } else if cur < s.len() && (s[cur] == 'Z' || s[cur] == 'z') {
            Ok(((FNode::BlankControl(BlankType::BZ), false), cur + 1))
        } else {
            Ok(((FNode::BlankControl(BlankType::B), false), cur))
        }
    } else if c == 'T' || c == 't' {
        if repeat is Some {
            Err(ParseError::RepeatingTab(cur as usize))
        } else {
            let (tt, cur2): (TabType, int) = if cur < s.len() && (s[cur] == 'L' || s[cur] == 'l') {
                (TabType::TL, cur + 1)
            } else if cur < s.len() && (s[cur] == 'R' || s[cur] == 'r') {
                (TabType::TR, cur + 1)
            } else {
                (TabType::T, cur)
            };
            let c3 = skip_ws(s, cur2);
            match sp_digits(s, c3) {
                Err(x) => Err(x),
                Ok((None, m)) => Err(ParseError::ExpectedNumber(m as usize)),
                Ok((Some(cval), m)) => match tt {
                    TabType::T => Ok(((FNode::AbsColumn(cval), false), m)),
                    TabType::TR => if cval > isize::MAX as usize {
                        Err(ParseError::NumberTooBig(c3 as usize))
                    } else {
                        Ok(((FNode::RelColumn(cval as isize), false), m))
                    },
                    TabType::TL => if cval > isize::MAX as usize {
                        Err(ParseError::NumberTooBig(c3 as usize))
                    } else {
                        Ok(((FNode::RelColumn((-(cval as int)) as isize), false), m))
                    },
                },
            }
        }
    } else {
        Err(ParseError::UnexpectedChar(cur as usize, c))
    }
}

/// A whole format string: the parse of its characters from the start.
pub open spec fn sp_parse_format(s: Seq<char>) -> Result<FNode, ParseError> {
    match sp_parse(s, 0) {
        Ok((f, j)) => Ok(f),
        Err(x) => Err(x),
    }
}

/// The recursive-descent parser: a character buffer and how much of it has
/// been consumed.
pub struct FormatParser {
    chars: Vec<char>,
    pos: usize,
}

impl FormatParser {
    /// The consumed prefix never passes the end of the buffer.
    pub closed spec fn wf(&self) -> bool {
        self.pos <= self.chars@.len()
    }

    /// The characters this parser reads.
    pub closed spec fn src(&self) -> Seq<char> {
        self.chars@
    }

    /// How many characters have been consumed.
    pub closed spec fn at(&self) -> int {
        self.pos as int
    }

    /// A parser over the characters of `source`, nothing consumed yet.
    pub fn new(source: &str) -> (p: FormatParser)
        ensures
            p.wf(),
            p.src() == source@,
            p.at() == 0,
    {
        FormatParser { chars: crate::strutil::str_to_chars(source), pos: 0 }
    }

    fn peek(&self) -> (r: Option<char>)
        requires
            self.wf(),
        ensures
            r == (if self.at() < self.src().len() {
                Some(self.src()[self.at()])
            } else {
                None::<char>
            }),
    {
        if self.pos < self.chars.len() {
            Some(self.chars[self.pos])
        } else {
            None
        }
    }

    fn next(&mut self) -> (r: Option<char>)
        requires
            old(self).wf(),
        ensures
            final(self).wf(),
            final(self).src() == old(self).src(),
            old(self).at() < old(self).src().len() ==> r == Some(old(self).src()[old(self).at()])
                && final(self).at() == old(self).at() + 1,
            old(self).at() >= old(self).src().len() ==> r is None && final(self).at() == old(
                self,
            ).at(),
    {
        if self.pos < self.chars.len() {
            let c = self.chars[self.pos];
            self.pos += 1;
            Some(c)
        } else {
            None
        }
    }

    #[verifier::loop_isolation(false)]
    fn yield_whitespace(&mut self)
        requires
            old(self).wf(),
        ensures
            final(self).wf(),
            final(self).src() == old(self).src(),
            final(self).at() == skip_ws(old(self).src(), old(self).at()),
    {
        while self.pos < self.chars.len() && exec_is_format_ws(self.chars[self.pos])
            invariant
                self.wf(),
                self.chars == old(self).chars,
                old(self).pos <= self.pos,
                skip_ws(self.chars@, old(self).at()) == skip_ws(self.chars@, self.at()),
            decreases self.chars@.len() - self.pos,
        {
            self.pos += 1;
        }
    }

    #[verifier::loop_isolation(false)]
    fn yield_digits(&mut self) -> (r: Result<Option<usize>, ParseError>)
        requires
            old(self).wf(),
        ensures
            final(self).wf(),
            final(self).src() == old(self).src(),
            match sp_digits(old(self).src(), old(self).at()) {
                Ok((w, j)) => r == Ok::<Option<usize>, ParseError>(w) && final(self).at() == j,
                Err(e) => r == Err::<Option<usize>, ParseError>(e) && final(self).at()
                    == digits_end(old(self).src(), old(self).at()),
            },
    {
        let ghost s = self.chars@;
        let start_pos = self.pos;
        let ghost start = self.pos as int;
        let mut val: u128 = 0;
        let umax: u128 = usize::MAX as u128;
        while self.pos < self.chars.len() && exec_is_dec_digit(self.chars[self.pos])
            invariant
                self.wf(),
                self.chars == old(self).chars,
                start_pos <= self.pos,
                digits_end(s, start) == digits_end(s, self.at()),
                val <= umax ==> val as nat == digits_val(s, start, self.at()),
                val > umax ==> digits_val(s, start, self.at()) > usize::MAX,
            decreases self.chars@.len() - self.pos,
        {
            let c = self.chars[self.pos];
            let d: u128 = ((c as u32) - 48) as u128;
            proof {
                assert(digit_val(c) == d);
                assert(digits_val(s, start, self.at() + 1) == digits_val(s, start, self.at()) * 10
                    + digit_val(s[self.at()]));
            }
            if val <= umax {
                val = val * 10 + d;
            }
            self.pos += 1;
        }
        if self.pos == start_pos {
            return Ok(None);
        }
        if val > umax {
            return Err(ParseError::NumberTooBig(start_pos));
        }
        Ok(Some(val as usize))
    }

    /// Reads a quoted run delimited by `e`, with `e` doubled as an escape,
    /// appending the unescaped content to `dst`.
    #[verifier::loop_isolation(false)]
    fn yield_string(&mut self, dst: &mut String, e: char) -> (r: Result<(), ParseError>)
        requires
            old(self).wf(),
        ensures
            final(self).wf(),
            final(self).src() == old(self).src(),
            match sp_quoted(old(self).src(), old(self).at(), e) {
                Ok((t, j)) => r == Ok::<(), ParseError>(()) && final(self).at() == j
                    && final(dst)@ == old(dst)@ + t,
                Err(x) => r == Err::<(), ParseError>(x),
            },
    {
        let ghost s = self.chars@;
        let ghost i0 = self.pos as int;
        let ghost d0 = dst@.len() as int;
        proof {
            assert(dst@.skip(d0) =~= Seq::<char>::empty());
        }
        loop
            invariant
                self.wf(),
                self.chars == old(self).chars,
                i0 <= self.at(),
                d0 == old(dst)@.len(),
                dst@.subrange(0, d0) == old(dst)@,
                d0 <= dst@.len(),
                match sp_quoted(s, self.at(), e) {
                    Ok((t, j)) => sp_quoted(s, i0, e) == Ok::<(Seq<char>, int), ParseError>(
                        (dst@.skip(d0) + t, j),
                    ),
                    Err(x) => sp_quoted(s, i0, e) == Err::<(Seq<char>, int), ParseError>(x),
                },
            decreases self.chars@.len() - self.pos,
        {
            if self.pos >= self.chars.len() {
                return Err(ParseError::UnexpectedEOF(self.chars.len()));
            }
            let c = self.chars[self.pos];
            let ghost dpre = dst@;
            let ghost ppre = self.pos as int;
            if c == e {
                if self.pos + 1 < self.chars.len() && self.chars[self.pos + 1] == e {
                    dst.push(e);
                    self.pos = self.pos + 2;
                    proof {
                        assert(dst@.subrange(0, d0) =~= dpre.subrange(0, d0));
                        assert(dst@.skip(d0) =~= dpre.skip(d0).push(e));
                        match sp_quoted(s, self.at(), e) {
                            Ok((t, j)) => {
                                assert(sp_quoted(s, ppre, e) == Ok::<(Seq<char>, int), ParseError>(
                                    (seq![e] + t, j),
                                ));
                                assert(dpre.skip(d0) + (seq![e] + t) =~= dst@.skip(d0) + t);
                            },
                            Err(x) => {
                                assert(sp_quoted(s, ppre, e) == Err::<(Seq<char>, int), ParseError>(
                                    x,
                                ));
                            },
                        }
                    }
                } else {
                    self.pos = self.pos + 1;
                    proof {
                        assert(sp_quoted(s, ppre, e) == Ok::<(Seq<char>, int), ParseError>(
                            (Seq::empty(), self.at()),
                        ));
                        assert(dst@.skip(d0) + Seq::<char>::empty() =~= dst@.skip(d0));
                        assert(dst@ =~= old(dst)@ + dst@.skip(d0));
                    }
                    return Ok(());
                }
            } else {
                dst.push(c);
                self.pos = self.pos + 1;
                proof {
                    assert(dst@.subrange(0, d0) =~= dpre.subrange(0, d0));
                    assert(dst@.skip(d0) =~= dpre.skip(d0).push(c));
                    match sp_quoted(s, self.at(), e) {
                        Ok((t, j)) => {
                            assert(sp_quoted(s, ppre, e) == Ok::<(Seq<char>, int), ParseError>(
                                (seq![c] + t, j),
                            ));
                            assert(dpre.skip(d0) + (seq![c] + t) =~= dst@.skip(d0) + t);
                        },
                        Err(x) => {
                            assert(sp_quoted(s, ppre, e) == Err::<(Seq<char>, int), ParseError>(x));
                        },
                    }
                }
            }
        }
    }

    /// Reads the optional nonzero width after `L` or `A`.
    fn yield_opt_width(&mut self) -> (r: Result<Option<usize>, ParseError>)
        requires
            old(self).wf(),
        ensures
            final(self).wf(),
            final(self).src() == old(self).src(),
            match sp_opt_width(old(self).src(), old(self).at()) {
                Ok((w, j)) => r == Ok::<Option<usize>, ParseError>(w) && final(self).at() == j,
                Err(x) => r == Err::<Option<usize>, ParseError>(x),
            },
    {
        self.yield_whitespace();
        let w = match self.yield_digits() {
            Ok(w) => w,
            Err(x) => return Err(x),
        };
        if matches!(w, Some(0usize)) {
            return Err(ParseError::ExpectedNonZero(self.pos));
        }
        Ok(w)
    }

    /// Reads the `w` / `w.m` tail of an integer descriptor.
    fn yield_int_format(&mut self) -> (r: Result<(Option<usize>, Option<usize>), ParseError>)
        requires
            old(self).wf(),
        ensures
            final(self).wf(),
            final(self).src() == old(self).src(),
            match sp_int_format(old(self).src(), old(self).at()) {
                Ok((wd, j)) => r == Ok::<(Option<usize>, Option<usize>), ParseError>(wd)
                    && final(self).at() == j,
                Err(x) => r == Err::<(Option<usize>, Option<usize>), ParseError>(x),
            },
    {
        self.yield_whitespace();
        let w = match self.yield_digits() {
            Ok(w) => w,
            Err(x) => return Err(x),
        };
        if matches!(w, Some(0usize)) {
            return Err(ParseError::ExpectedNonZero(self.pos));
        }
        let mut d: Option<usize> = None;
        if w.is_some() && matches!(self.peek(), Some('.')) {
            let _ = self.next();
            self.yield_whitespace();
            d = match self.yield_digits() {
                Ok(d) => d,
                Err(x) => return Err(x),
            };
            if d.is_none() {
                return Err(ParseError::ExpectedNumber(self.pos));
            }
        }
        Ok((w, d))
    }

    /// Reads the `w` / `w.d` / `w.dEe` tail of a real descriptor.
    fn yield_real_format(&mut self) -> (r: Result<
        (Option<usize>, Option<usize>, Option<usize>),
        ParseError,
    >)
        requires
            old(self).wf(),
        ensures
            final(self).wf(),
            final(self).src() == old(self).src(),
            match sp_real_format(old(self).src(), old(self).at()) {
                Ok((wde, j)) => r == Ok::<(Option<usize>, Option<usize>, Option<usize>), ParseError>(
                    wde,
                ) && final(self).at() == j,
                Err(x) => r == Err::<(Option<usize>, Option<usize>, Option<usize>), ParseError>(x),
            },
    {
        self.yield_whitespace();
        let w = match self.yield_digits() {
            Ok(w) => w,
            Err(x) => return Err(x),
        };
        if matches!(w, Some(0usize)) {
            return Err(ParseError::ExpectedNonZero(self.pos));
        }
        let mut d: Option<usize> = None;
        let mut ex: Option<usize> = None;
        if w.is_some() && matches!(self.peek(), Some('.')) {
            let _ = self.next();
            self.yield_whitespace();
            d = match self.yield_digits() {
                Ok(d) => d,
                Err(x) => return Err(x),
            };
            if d.is_none() {
                return Err(ParseError::ExpectedNumber(self.pos));
            }
            let p2 = self.peek();
            if matches!(p2, Some('.')) || matches!(p2, Some('e')) || matches!(p2, Some('E')) {
                let _ = self.next();
                self.yield_whitespace();
                ex = match self.yield_digits() {
                    Ok(ex) => ex,
                    Err(x) => return Err(x),
                };
                if matches!(ex, Some(0usize)) {
                    return Err(ParseError::ExpectedNonZero(self.pos));
                }
                if ex.is_none() {
                    return Err(ParseError::ExpectedNumber(self.pos));
                }
            }
        }
        Ok((w, d, ex))
    }
}

/// Pushing one node onto a sequence views to pushing its view.
pub proof fn lemma_view_nodes_push(s: Seq<FormatNode>, x: FormatNode)
    ensures
        view_nodes(s.push(x)) == view_nodes(s).push(x@),
{
    assert(s.push(x).drop_last() =~= s);
    assert(s.push(x).last() == x);
    assert(view_nodes(s.push(x)) == view_nodes(s.push(x).drop_last()).push(s.push(x).last()@));
}

/// Wraps `token` in a repeat node when a count was read; zero is rejected.
fn mk_repeating(repeat: Option<usize>, token: FormatNode, pos: usize) -> (r: Result<
    FormatNode,
    ParseError,
>)
    ensures
        match r {
            Ok(n) => sp_mk_repeating(repeat, token@, pos as int) == Ok::<FNode, ParseError>(n@),
            Err(e) => sp_mk_repeating(repeat, token@, pos as int) == Err::<FNode, ParseError>(e),
        },
{
    match repeat {
        None => Ok(token),
        Some(r) => if r == 0 {
            Err(ParseError::ExpectedNonZero(pos))
        } else {
            Ok(FormatNode::Repeat(r, Box::new(token)))
        },
    }
}

/// The real descriptor named by `c`.
fn exec_real_of_char(c: char) -> (r: RealFormat)
    ensures
        r == real_of_char(c),
{
    if c == 'F' || c == 'f' {
        RealFormat::F
    } else if c == 'E' || c == 'e' {
        RealFormat::E
    } else if c == 'D' || c == 'd' {
        RealFormat::D
    } else {
        RealFormat::G
    }
}

impl FormatParser {
    /// Parses one parenthesized group, consuming the input from the current
    /// position through the closing parenthesis.
    ///
    /// The result is exactly what the specification parser [`sp_parse`]
    /// gives on the same characters from the same position.
    #[verifier::loop_isolation(false)]
    #[verifier::rlimit(100)]
    pub fn parse(&mut self) -> (r: Result<FormatNode, ParseError>)
        requires
            old(self).wf(),
        ensures
            final(self).wf(),
            final(self).src() == old(self).src(),
            match r {
                Ok(node) => sp_parse(old(self).src(), old(self).at()) == Ok::<
                    (FNode, int),
                    ParseError,
                >((node@, final(self).at())) && old(self).at() < final(self).at(),
                Err(e) => sp_parse(old(self).src(), old(self).at()) == Err::<
                    (FNode, int),
                    ParseError,
                >(e),
            },
        decreases old(self).src().len() - old(self).at(),
    {
        let ghost s = self.chars@;
        let ghost i0 = self.pos as int;
        self.yield_whitespace();
        match self.next() {
            Some(c) => {
                if c != '(' {
                    return Err(ParseError::ExpectedParen(self.pos));
                }
            },
            None => {
                return Err(ParseError::ExpectedParen(self.pos));
            },
        }
        let mut result: Vec<FormatNode> = Vec::new();
        let mut was_comma = false;
        let mut was_slash = false;
        proof {
            assert(view_nodes(result@) =~= Seq::<FNode>::empty());
            assert(sp_parse(s, i0) == sp_group_body(s, self.at(), view_nodes(result@), false, false));
        }
        loop
            invariant
                self.wf(),
                self.chars@ == s,
                i0 < self.at(),
                sp_parse(s, i0) == sp_group_body(
                    s,
                    self.at(),
                    view_nodes(result@),
                    was_comma,
                    was_slash,
                ),
            decreases self.chars@.len() - self.pos,
        {
            let ghost ah = self.at();
            let ghost acc0 = view_nodes(result@);
            let ghost wc0 = was_comma;
            let ghost ws0 = was_slash;
            proof {
                lemma_view_nodes_index(result@);
            }
            self.yield_whitespace();
            let ghost jh = self.at();
            let p = match self.peek() {
                Some(x) => x,
                None => {
                    return Err(ParseError::UnexpectedEOF(self.pos));
                },
            };
            if p != ')' && p != '/' && result.len() != 0 && !(was_comma || was_slash) {
                return Err(ParseError::ExpectedComma(self.pos));
            }
            // Scale control is the only source of negative value prefixes.
            if p == '-' {
                let _ = self.next();
                let v = match self.parse_neg_scale() {
                    Ok(v) => v,
                    Err(e) => {
                        return Err(e);
                    },
                };
                let node = FormatNode::Scale(v);
                let ghost t = self.at();
                proof {
                    lemma_view_nodes_push(result@, node);
                    assert(sp_group_body(s, ah, acc0, wc0, ws0) == sp_group_tail(
                        s,
                        t,
                        acc0.push(node@),
                        false,
                    ));
                }
                result.push(node);
                was_slash = false;
                self.yield_whitespace();
                if matches!(self.peek(), Some(',')) {
                    let _ = self.next();
                    was_comma = true;
                } else {
                    was_comma = false;
                }
                continue;
            }
            let repeat = match self.yield_digits() {
                Ok(w) => w,
                Err(e) => {
                    return Err(e);
                },
            };
            self.yield_whitespace();
            let ghost k2 = self.at();
            if matches!(self.peek(), Some('(')) {
                if matches!(repeat, Some(0usize)) {
                    return Err(ParseError::ExpectedNonZero(self.pos));
                }
                let sub = match self.parse() {
                    Ok(g) => g,
                    Err(e) => {
                        return Err(e);
                    },
                };
                let node = match repeat {
                    None => sub,
                    Some(r) => FormatNode::Repeat(r, Box::new(sub)),
                };
                let ghost t = self.at();
                proof {
                    lemma_view_nodes_push(result@, node);
                    assert(sp_group_body(s, ah, acc0, wc0, ws0) == sp_group_tail(
                        s,
                        t,
                        acc0.push(node@),
                        false,
                    ));
                }
                result.push(node);
                was_slash = false;
                self.yield_whitespace();
                if matches!(self.peek(), Some(',')) {
                    let _ = self.next();
                    was_comma = true;
                } else {
                    was_comma = false;
                }
                continue;
            }
            let c = match self.next() {
                Some(x) => x,
                None => {
                    return Err(ParseError::UnexpectedEOF(self.pos));
                },
            };
            let ghost cur = self.at();
            proof {
                assert(sp_group_body(s, ah, acc0, wc0, ws0) == sp_group_item(
                    s,
                    k2,
                    acc0,
                    wc0,
                    ws0,
                    repeat,
                ));
            }
            if c == ')' {
                if was_comma {
                    return Err(ParseError::ExtraComma(self.pos));
                }
                proof {
                    assert(sp_group_item(s, k2, acc0, wc0, ws0, repeat) == Ok::<
                        (FNode, int),
                        ParseError,
                    >((FNode::Group(acc0), cur)));
                }
                return Ok(FormatNode::Group(result));
            }
            if c == ',' {
                if result.len() == 0 && !was_comma {
                    was_comma = true;
                    proof {
                        assert(sp_group_item(s, k2, acc0, wc0, ws0, repeat) == sp_group_body(
                            s,
                            cur,
                            acc0,
                            true,
                            ws0,
                        ));
                    }
                    continue;
                } else {
                    return Err(ParseError::ExtraComma(self.pos));
                }
            }
            let (node, slash) = match self.parse_item(c, repeat) {
                Ok(ns) => ns,
                Err(e) => {
                    return Err(e);
                },
            };
            let ghost t = self.at();
            proof {
                lemma_view_nodes_push(result@, node);
                assert(sp_group_item(s, k2, acc0, wc0, ws0, repeat) == sp_group_tail(
                    s,
                    t,
                    acc0.push(node@),
                    slash,
                ));
            }
            result.push(node);
            was_slash = slash;
            self.yield_whitespace();
            if matches!(self.peek(), Some(',')) {
                let _ = self.next();
                was_comma = true;
            } else {
                was_comma = false;
            }
        }
    }

    /// Reads a negative scale prefix whose `-` sign has just been consumed:
    /// digits, whitespace, then the letter `P`.
    fn parse_neg_scale(&mut self) -> (r: Result<isize, ParseError>)
        requires
            old(self).wf(),
            1 <= old(self).at(),
        ensures
            final(self).wf(),
            final(self).src() == old(self).src(),
            match sp_neg_scale(old(self).src(), old(self).at() - 1) {
                Ok((v, t)) => r == Ok::<isize, ParseError>(v) && final(self).at() == t && old(
                    self,
                ).at() <= t,
                Err(x) => r == Err::<isize, ParseError>(x),
            },
    {
        let dstart = self.pos;
        let x = match self.yield_digits() {
            Ok(Some(x)) => x,
            Ok(None) => {
                return Err(ParseError::ExpectedNumber(self.pos));
            },
            Err(e) => {
                return Err(e);
            },
        };
        if x > (isize::MAX as usize) {
            return Err(ParseError::NumberTooBig(dstart));
        }
        self.yield_whitespace();
        match self.next() {
            Some(c2) => {
                if c2 != 'P' && c2 != 'p' {
                    return Err(ParseError::ExpectedScaleControl(self.pos));
                }
            },
            None => {
                return Err(ParseError::ExpectedScaleControl(self.pos));
            },
        }
        Ok(-(x as isize))
    }

    /// Reads the remainder of one descriptor item whose first character `c`
    /// has just been consumed, other than a nested group, a closing
    /// parenthesis or a comma.
    #[verifier::rlimit(100)]
    fn parse_item(&mut self, c: char, repeat: Option<usize>) -> (r: Result<
        (FormatNode, bool),
        ParseError,
    >)
        requires
            old(self).wf(),
            1 <= old(self).at() <= old(self).src().len(),
            old(self).src()[old(self).at() - 1] == c,
        ensures
            final(self).wf(),
            final(self).src() == old(self).src(),
            match sp_item_node(old(self).src(), old(self).at() - 1, repeat) {
                Ok(((nd, sl), t)) => r matches Ok(ns) && ns.0@ == nd && ns.1 == sl
                    && final(self).at() == t && old(self).at() <= t,
                Err(x) => r == Err::<(FormatNode, bool), ParseError>(x),
            },
    {
        proof {
            reveal(sp_item_node);
        }
        let node: FormatNode;
        let mut slash = false;
        if c == '/' {
            node = match mk_repeating(repeat, FormatNode::NewLine, self.pos) {
                Ok(n) => n,
                Err(e) => {
                    return Err(e);
                },
            };
            slash = true;
        } else if c == '$' {
            if repeat.is_some() {
                return Err(ParseError::RepeatingDollar(self.pos));
            }
            node = FormatNode::SuppressNewLine;
        } else if c == ':' {
            if repeat.is_some() {
                return Err(ParseError::RepeatingColon(self.pos));
            }
            node = FormatNode::Terminate;
        } else if c == 'X' || c == 'x' {
            node = match mk_repeating(repeat, FormatNode::SkipChar, self.pos) {
                Ok(n) => n,
                Err(e) => {
                    return Err(e);
                },
            };
        } else if c == 'Q' || c == 'q' {
            if repeat.is_some() {
                return Err(ParseError::RepeatingQ(self.pos));
            }
            node = FormatNode::RemainingChars;
        } else if c == 'I' || c == 'i' {
            let (w, d) = match self.yield_int_format() {
                Ok(wd) => wd,
                Err(e) => {
                    return Err(e);
                },
            };
            node = match mk_repeating(repeat, FormatNode::Int(w, d), self.pos) {
                Ok(n) => n,
                Err(e) => {
                    return Err(e);
                },
            };
        } else if c == 'Z' || c == 'z' {
            let (w, d) = match self.yield_int_format() {
                Ok(wd) => wd,
                Err(e) => {
                    return Err(e);
                },
            };
            node = match mk_repeating(repeat, FormatNode::Hex(w, d), self.pos) {
                Ok(n) => n,
                Err(e) => {
                    return Err(e);
                },
            };
        } else if c == 'O' || c == 'o' {
            let (w, d) = match self.yield_int_format() {
                Ok(wd) => wd,
                Err(e) => {
                    return Err(e);
                },
            };
            node = match mk_repeating(repeat, FormatNode::Oct(w, d), self.pos) {
                Ok(n) => n,
                Err(e) => {
                    return Err(e);
                },
            };
        } else if c == 'L' || c == 'l' {
            let w = match self.yield_opt_width() {
                Ok(w) => w,
                Err(e) => {
                    return Err(e);
                },
            };
            node = match mk_repeating(repeat, FormatNode::Bool(w), self.pos) {
                Ok(n) => n,
                Err(e) => {
                    return Err(e);
                },
            };
        } else if c == 'A' || c == 'a' {
            let w = match self.yield_opt_width() {
                Ok(w) => w,
                Err(e) => {
                    return Err(e);
                },
            };
            node = match mk_repeating(repeat, FormatNode::Str(w), self.pos) {
                Ok(n) => n,
                Err(e) => {
                    return Err(e);
                },
            };
        } else if c == '\'' || c == '"' {
            if repeat.is_some() {
                return Err(ParseError::RepeatingStr(self.pos));
            }
            let mut lit = String::new();
            match self.yield_string(&mut lit, c) {
                Ok(()) => {},
                Err(e) => {
                    return Err(e);
                },
            }
            node = FormatNode::Literal(lit);
        } else if c == 'F' || c == 'f' || c == 'E' || c == 'e' || c == 'D' || c == 'd' || c == 'G'
            || c == 'g' {
            let (w, d, ex) = match self.yield_real_format() {
                Ok(wde) => wde,
                Err(e) => {
                    return Err(e);
                },
            };
            node = match mk_repeating(
                repeat,
                FormatNode::Real(exec_real_of_char(c), w, d, ex),
                self.pos,
            ) {
                Ok(n) => n,
                Err(e) => {
                    return Err(e);
                },
            };
        } else if c == 'P' || c == 'p' {
            match repeat {
                None => {
                    return Err(ParseError::MissingScale(self.pos));
                },
                Some(r) => {
                    if r > (isize::MAX as usize) {
                        return Err(ParseError::NumberTooBig(self.pos));
                    }
                    node = FormatNode::Scale(r as isize);
                },
            }
        } else if c == 'R' || c == 'r' {
            match repeat {
                None => {
                    return Err(ParseError::MissingRadix(self.pos));
                },
                Some(r) => {
                    if 2 <= r && r <= 36 {
                        node = FormatNode::Radix(r);
                    } else {
                        return Err(ParseError::RadixOutOfRange(self.pos, r));
                    }
                },
            }
        } else if c == 'B' || c == 'b' {
            if repeat.is_some() {
                return Err(ParseError::RepeatingBlankControl(self.pos));
            }
            let pk = self.peek();
            if matches!(pk, Some('N')) || matches!(pk, Some('n')) {
                let _ = self.next();
                node = FormatNode::BlankControl(BlankType::BN);
            } else if matches!(pk, Some('Z')) || matches!(pk, Some('z')) {
                let _ = self.next();
                node = FormatNode::BlankControl(BlankType::BZ);
            } else {
                node = FormatNode::BlankControl(BlankType::B);
            }
        } else if c == 'T' || c == 't' {
            if repeat.is_some() {
                return Err(ParseError::RepeatingTab(self.pos));
            }
            let pk = self.peek();
            let tab_type: TabType;
            if matches!(pk, Some('L')) || matches!(pk, Some('l')) {
                let _ = self.next();
                tab_type = TabType::TL;
            } else if matches!(pk, Some('R')) || matches!(pk, Some('r')) {
                let _ = self.next();
                tab_type = TabType::TR;
            } else {
                tab_type = TabType::T;
            }
            self.yield_whitespace();
            let dstart = self.pos;
            let cw = match self.yield_digits() {
                Ok(Some(x)) => x,
                Ok(None) => {
                    return Err(ParseError::ExpectedNumber(self.pos));
                },
                Err(e) => {
                    return Err(e);
                },
            };
            match tab_type {
                TabType::T => {
                    node = FormatNode::AbsColumn(cw);
                },
                TabType::TR => {
                    if cw > (isize::MAX as usize) {
                        return Err(ParseError::NumberTooBig(dstart));
                    }
                    node = FormatNode::RelColumn(cw as isize);
                },
                TabType::TL => {
                    if cw > (isize::MAX as usize) {
                        return Err(ParseError::NumberTooBig(dstart));
                    }
                    node = FormatNode::RelColumn(-(cw as isize));
                },
            }
        } else {
            return Err(ParseError::UnexpectedChar(self.pos, c));
        }
        Ok((node, slash))
    }
}

/// Parses a whole format string into its tree, or reports the first fault.
pub fn parse_format(source: &str) -> (r: Result<FormatNode, ParseError>)
    ensures
        match r {
            Ok(node) => sp_parse_format(source@) == Ok::<FNode, ParseError>(node@),
            Err(e) => sp_parse_format(source@) == Err::<FNode, ParseError>(e),
        },
{
    let mut p = FormatParser::new(source);
    p.parse()
}

} // verus!
