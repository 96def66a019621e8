//! The round-trip law of the format language: re-parsing the canonical
//! print of any parsed format tree gives the same tree back.

use vstd::prelude::*;
use crate::format::{
    FNode, ParseError, BlankType, print_node, print_items, print_nat, print_int_digits,
    esc_quotes, real_letter, real_of_char, dec_digit_char, sp_parse, sp_group_body, sp_group_tail,
    sp_group_item, sp_item_node, sp_mk_repeating, sp_parse_format,
};
use crate::scan::{
    is_format_ws, is_dec_digit, digit_val, skip_ws, digits_end, digits_val, sp_digits, sp_quoted,
    sp_opt_width, sp_int_format, sp_real_format, sp_neg_scale, lemma_skip_ws_bounds,
    lemma_digits_end_bounds, lemma_sp_digits_bounds, lemma_quoted_bounds, lemma_opt_width_bounds,
    lemma_int_format_bounds, lemma_real_format_bounds, lemma_neg_scale_bounds,
};

verus! {

broadcast use
    lemma_skip_ws_bounds,
    lemma_digits_end_bounds,
    lemma_sp_digits_bounds,
    lemma_quoted_bounds,
    lemma_opt_width_bounds,
    lemma_int_format_bounds,
    lemma_real_format_bounds,
    lemma_neg_scale_bounds;

/// The node kinds a repeat count may stand before.
pub open spec fn repeatable(n: FNode) -> bool {
    ||| n is NewLine
    ||| n is SkipChar
    ||| n is Int
    ||| n is Oct
    ||| n is Hex
    ||| n is Bool
    ||| n is Str
    ||| n is Real
    ||| n is Group
}

/// The trees the parser can produce: widths present are nonzero, later
/// optional parts come only with the earlier ones, sticky prefixes lie in
/// their ranges, and repeats are positive and stand over repeatable nodes.
pub open spec fn wf_node(n: FNode) -> bool
    decreases n,
{
    match n {
        FNode::Int(ow, od) => (ow matches Some(w) ==> w >= 1) && (od is Some ==> ow is Some),
        FNode::Oct(ow, od) => (ow matches Some(w) ==> w >= 1) && (od is Some ==> ow is Some),
        FNode::Hex(ow, od) => (ow matches Some(w) ==> w >= 1) && (od is Some ==> ow is Some),
        FNode::Bool(ow) => ow matches Some(w) ==> w >= 1,
        FNode::Str(ow) => ow matches Some(w) ==> w >= 1,
        FNode::Real(f, ow, od, oe) => (ow matches Some(w) ==> w >= 1) && (od is Some ==> ow
            is Some) && (oe is Some ==> od is Some) && (oe matches Some(e) ==> e >= 1),
        FNode::Radix(r) => 2 <= r <= 36,
        FNode::Scale(x) => x > isize::MIN,
        FNode::RelColumn(w) => w > isize::MIN,
        FNode::Group(v) => wf_nodes(v),
        FNode::Repeat(r, b) => r >= 1 && repeatable(*b) && wf_node(*b),
        _ => true,
    }
}

/// Every member of the sequence is well formed.
pub open spec fn wf_nodes(v: Seq<FNode>) -> bool
    decreases v,
{
    forall|k: int| 0 <= k < v.len() ==> wf_node(#[trigger] v[k])
}

/// Everything the specification parser hands back is well formed: the
/// whole result is a group of well-formed members, and parsing consumed at
/// least one character without passing the end.
pub proof fn lemma_parse_wf(s: Seq<char>, i: int)
    requires
        0 <= i <= s.len(),
    ensures
        sp_parse(s, i) matches Ok((f, j)) ==> f is Group && wf_nodes(f->Group_0) && i < j
            <= s.len(),
    decreases s.len() - i, 0nat,
{
    let j = skip_ws(s, i);
    if j < s.len() && s[j] == '(' {
        lemma_body_wf(s, j + 1, Seq::empty(), false, false);
    }
}

/// The group-body loop only ever adds well-formed members.
pub proof fn lemma_body_wf(s: Seq<char>, i: int, acc: Seq<FNode>, wc: bool, wsl: bool)
    requires
        0 <= i <= s.len(),
        wf_nodes(acc),
    ensures
        sp_group_body(s, i, acc, wc, wsl) matches Ok((f, j)) ==> f is Group && wf_nodes(
            f->Group_0,
        ) && i < j <= s.len(),
    decreases s.len() - i, 1nat,
{
    let j = skip_ws(s, i);
    if j < s.len() {
        let p = s[j];
        if p != ')' && p != '/' && acc.len() != 0 && !(wc || wsl) {
        } else if p == '-' {
            match sp_neg_scale(s, j) {
                Err(_) => {},
                Ok((v, t)) => {
                    assert(wf_nodes(acc.push(FNode::Scale(v)))) by {
                        lemma_wf_push(acc, FNode::Scale(v));
                    }
                    lemma_tail_wf(s, t, acc.push(FNode::Scale(v)), false);
                },
            }
        } else {
            match sp_digits(s, j) {
                Err(_) => {},
                Ok((repeat, k)) => {
                    let k2 = skip_ws(s, k);
                    if k2 < s.len() && s[k2] == '(' {
                        if repeat != Some(0usize) {
                            lemma_parse_wf(s, k2);
                            match sp_parse(s, k2) {
                                Err(_) => {},
                                Ok((g, m)) => {
                                    let item = match repeat {
                                        None => g,
                                        Some(r) => FNode::Repeat(r, Box::new(g)),
                                    };
                                    assert(wf_node(g));
                                    assert(repeatable(g));
                                    assert(wf_node(item));
                                    lemma_wf_push(acc, item);
                                    let mm = if k2 + 1 <= m && m <= s.len() {
                                        m
                                    } else {
                                        k2 + 1
                                    };
                                    lemma_tail_wf(s, mm, acc.push(item), false);
                                },
                            }
                        }
                    } else if k2 < s.len() {
                        lemma_item_wf(s, k2, acc, wc, wsl, repeat);
                    }
                },
            }
        }
    }
}

/// The separator step preserves well-formedness of the accumulator.
pub proof fn lemma_tail_wf(s: Seq<char>, t: int, acc: Seq<FNode>, wsl: bool)
    requires
        0 <= t <= s.len(),
        wf_nodes(acc),
    ensures
        sp_group_tail(s, t, acc, wsl) matches Ok((f, j)) ==> f is Group && wf_nodes(f->Group_0)
            && t < j <= s.len(),
    decreases s.len() - t, 2nat,
{
    let u = skip_ws(s, t);
    if u < s.len() && s[u] == ',' {
        lemma_body_wf(s, u + 1, acc, true, wsl);
    } else {
        lemma_body_wf(s, u, acc, false, wsl);
    }
}

/// One parsed descriptor item is well formed.
pub proof fn lemma_item_wf(
    s: Seq<char>,
    j: int,
    acc: Seq<FNode>,
    wc: bool,
    wsl: bool,
    repeat: Option<usize>,
)
    requires
        0 <= j < s.len(),
        wf_nodes(acc),
    ensures
        sp_group_item(s, j, acc, wc, wsl, repeat) matches Ok((f, jj)) ==> f is Group && wf_nodes(
            f->Group_0,
        ) && j < jj <= s.len(),
    decreases s.len() - j, 0nat,
{
    let c = s[j];
    let cur = j + 1;
    if c == ')' {
    } else if c == ',' {
        if acc.len() == 0 && !wc {
            lemma_body_wf(s, cur, acc, true, wsl);
        }
    } else {
        reveal(sp_item_node);
        match sp_item_node(s, j, repeat) {
            Err(_) => {},
            Ok(((nd, sl), t)) => {
                assert(wf_node(nd)) by {
                    lemma_item_node_wf(s, j, repeat);
                }
                lemma_wf_push(acc, nd);
                let tt = if cur <= t && t <= s.len() {
                    t
                } else {
                    cur
                };
                lemma_tail_wf(s, tt, acc.push(nd), sl);
            },
        }
    }
}

/// The node one descriptor item produces is well formed.
pub proof fn lemma_item_node_wf(s: Seq<char>, j: int, repeat: Option<usize>)
    requires
        0 <= j < s.len(),
    ensures
        sp_item_node(s, j, repeat) matches Ok(((nd, sl), t)) ==> wf_node(nd),
{
    reveal(sp_item_node);
    let c = s[j];
    let cur = j + 1;
    crate::scan::lemma_int_format_props(s, cur);
    crate::scan::lemma_real_format_props(s, cur);
    crate::scan::lemma_opt_width_props(s, cur);
    assert forall|tok: FNode, m: int|
        repeatable(tok) && wf_node(tok) && (#[trigger] sp_mk_repeating(repeat, tok, m))
            is Ok implies wf_node(sp_mk_repeating(repeat, tok, m)->Ok_0) by {
        match repeat {
            None => {},
            Some(r) => {
                if r != 0 {
                    assert(sp_mk_repeating(repeat, tok, m) == Ok::<FNode, ParseError>(
                        FNode::Repeat(r, Box::new(tok)),
                    ));
                    assert(wf_node(FNode::Repeat(r, Box::new(tok))));
                }
            },
        }
    }
    if c == 'T' || c == 't' {
        let cur2: int = if cur < s.len() && (s[cur] == 'L' || s[cur] == 'l' || s[cur] == 'R'
            || s[cur] == 'r') {
            cur + 1
        } else {
            cur
        };
        let c3 = skip_ws(s, cur2);
        match sp_digits(s, c3) {
            Ok((Some(cval), m)) => {
                if cval <= isize::MAX as usize {
                    assert((-(cval as int)) as isize > isize::MIN);
                }
            },
            _ => {},
        }
    }
}

/// A printed number is one or more decimal digits.
pub proof fn lemma_print_nat_digits(v: nat)
    ensures
        print_nat(v).len() >= 1,
        forall|k: int| 0 <= k < print_nat(v).len() ==> is_dec_digit(#[trigger] print_nat(v)[k]),
    decreases v,
{
    if v < 10 {
        assert(is_dec_digit(dec_digit_char(v)));
    } else {
        lemma_print_nat_digits(v / 10);
        assert(is_dec_digit(dec_digit_char(v % 10)));
        assert forall|k: int|
            0 <= k < print_nat(v).len() implies is_dec_digit(#[trigger] print_nat(v)[k]) by {
            if k < print_nat(v / 10).len() {
                assert(print_nat(v)[k] == print_nat(v / 10)[k]);
            } else {
                assert(print_nat(v)[k] == dec_digit_char(v % 10));
            }
        }
    }
}

/// Scanning the print of a number gives the number back.
pub proof fn lemma_digits_val_of_print(s: Seq<char>, i: int, v: nat)
    requires
        0 <= i,
        i + print_nat(v).len() <= s.len(),
        s.subrange(i, i + print_nat(v).len()) == print_nat(v),
    ensures
        digits_val(s, i, i + print_nat(v).len() as int) == v,
    decreases v,
{
    let l = print_nat(v).len() as int;
    if v < 10 {
        assert(s[i] == print_nat(v)[0]);
        assert(digit_val(dec_digit_char(v)) == v);
        assert(digits_val(s, i, i + 1) == digits_val(s, i, i) * 10 + digit_val(s[i]));
    } else {
        let lp = print_nat(v / 10).len() as int;
        assert(s.subrange(i, i + lp) =~= print_nat(v / 10)) by {
            assert forall|k: int| 0 <= k < lp implies #[trigger] s.subrange(i, i + lp)[k]
                == print_nat(v / 10)[k] by {
                assert(s.subrange(i, i + l)[k] == print_nat(v)[k]);
                assert(print_nat(v)[k] == print_nat(v / 10)[k]);
            }
        }
        lemma_digits_val_of_print(s, i, v / 10);
        assert(s[i + l - 1] == print_nat(v)[l - 1]);
        assert(print_nat(v)[l - 1] == dec_digit_char(v % 10));
        assert(digit_val(dec_digit_char(v % 10)) == v % 10);
        assert(digits_val(s, i, i + l) == digits_val(s, i, i + l - 1) * 10 + digit_val(
            s[i + l - 1],
        ));
    }
}

/// The digit scan runs to the end of a digit run and stops there.
pub proof fn lemma_digits_end_run(s: Seq<char>, i: int, j: int)
    requires
        0 <= i <= j <= s.len(),
        forall|k: int| i <= k < j ==> is_dec_digit(#[trigger] s[k]),
        j == s.len() || !is_dec_digit(s[j]),
    ensures
        digits_end(s, i) == j,
    decreases j - i,
{
    if i < j {
        lemma_digits_end_run(s, i + 1, j);
    }
}

/// Reading a number where its print stands gives exactly the number.
pub proof fn lemma_sp_digits_of_print(s: Seq<char>, i: int, v: usize)
    requires
        0 <= i,
        i + print_nat(v as nat).len() <= s.len(),
        s.subrange(i, i + print_nat(v as nat).len()) == print_nat(v as nat),
        i + print_nat(v as nat).len() == s.len() || !is_dec_digit(
            s[i + print_nat(v as nat).len()],
        ),
    ensures
        sp_digits(s, i) == Ok::<(Option<usize>, int), ParseError>(
            (Some(v), i + print_nat(v as nat).len()),
        ),
{
    let l = print_nat(v as nat).len() as int;
    lemma_print_nat_digits(v as nat);
    assert forall|k: int| i <= k < i + l implies is_dec_digit(#[trigger] s[k]) by {
        assert(s[k] == s.subrange(i, i + l)[k - i]);
    }
    lemma_digits_end_run(s, i, i + l);
    lemma_digits_val_of_print(s, i, v as nat);
}

/// Reading a number where none stands reads nothing.
pub proof fn lemma_sp_digits_none(s: Seq<char>, i: int)
    requires
        0 <= i <= s.len(),
        i == s.len() || !is_dec_digit(s[i]),
    ensures
        sp_digits(s, i) == Ok::<(Option<usize>, int), ParseError>((None, i)),
{
}

/// Reading a quoted run where the escaped print of its content stands,
/// followed by the closing delimiter and then anything but the delimiter,
/// gives the content back.
pub proof fn lemma_quoted_of_print(s: Seq<char>, i: int, t: Seq<char>)
    requires
        0 <= i,
        i + esc_quotes(t).len() + 1 <= s.len(),
        s.subrange(i, i + esc_quotes(t).len()) == esc_quotes(t),
        s[i + esc_quotes(t).len()] == '\'',
        i + esc_quotes(t).len() + 1 == s.len() || s[i + esc_quotes(t).len() + 1] != '\'',
    ensures
        sp_quoted(s, i, '\'') == Ok::<(Seq<char>, int), ParseError>(
            (t, i + esc_quotes(t).len() + 1),
        ),
    decreases t.len(),
{
    let e = esc_quotes(t);
    let l = e.len() as int;
    if t.len() == 0 {
        assert(sp_quoted(s, i, '\'') == Ok::<(Seq<char>, int), ParseError>((Seq::empty(), i + 1)));
        assert(t =~= Seq::<char>::empty());
    } else {
        let rest = t.drop_first();
        let er = esc_quotes(rest);
        if t[0] == '\'' {
            assert(e =~= seq!['\'', '\''] + er);
            assert(s[i] == e[0]);
            assert(s[i + 1] == e[1]);
            assert(s.subrange(i + 2, i + 2 + er.len()) =~= er) by {
                assert forall|k: int| 0 <= k < er.len() implies s.subrange(
                    i + 2,
                    i + 2 + er.len(),
                )[k] == er[k] by {
                    assert(s.subrange(i, i + l)[k + 2] == e[k + 2]);
                    assert(e[k + 2] == er[k]);
                }
            }
            lemma_quoted_of_print(s, i + 2, rest);
            assert(seq!['\''] + rest =~= t);
        } else {
            assert(e =~= seq![t[0]] + er);
            assert(s[i] == e[0]);
            assert(s.subrange(i + 1, i + 1 + er.len()) =~= er) by {
                assert forall|k: int| 0 <= k < er.len() implies s.subrange(
                    i + 1,
                    i + 1 + er.len(),
                )[k] == er[k] by {
                    assert(s.subrange(i, i + l)[k + 1] == e[k + 1]);
                    assert(e[k + 1] == er[k]);
                }
            }
            lemma_quoted_of_print(s, i + 1, rest);
            assert(seq![t[0]] + rest =~= t);
        }
    }
}

/// The characters that can follow a complete item in a printed group: a
/// separating comma, a closing parenthesis, or a slash item.
pub open spec fn is_sep_char(c: char) -> bool {
    c == ',' || c == ')' || c == '/'
}

/// A separator character is nothing a descriptor's tail could take for its
/// own: not a digit, not whitespace, and none of the continuation marks.
pub proof fn lemma_sep_char_facts(c: char)
    requires
        is_sep_char(c),
    ensures
        !is_dec_digit(c),
        !is_format_ws(c),
        c != '.',
        c != 'e',
        c != 'E',
        c != '\'',
        c != '(',
        c != 'N',
        c != 'n',
        c != 'Z',
        c != 'z',
        c != 'L',
        c != 'l',
        c != 'R',
        c != 'r',
        c != 'P',
        c != 'p',
{
}

/// Reading the width part of an integer descriptor where its print stands
/// gives the width parts back.
pub proof fn lemma_int_format_of_print(s: Seq<char>, i: int, ow: Option<usize>, od: Option<usize>)
    requires
        0 <= i,
        ow matches Some(w) ==> w >= 1,
        od is Some ==> ow is Some,
        i + print_int_digits(ow, od).len() < s.len(),
        s.subrange(i, i + print_int_digits(ow, od).len()) == print_int_digits(ow, od),
        is_sep_char(s[i + print_int_digits(ow, od).len()]),
    ensures
        sp_int_format(s, i) == Ok::<((Option<usize>, Option<usize>), int), ParseError>(
            ((ow, od), i + print_int_digits(ow, od).len()),
        ),
{
    let l = print_int_digits(ow, od).len() as int;
    lemma_sep_char_facts(s[i + l]);
    match (ow, od) {
        (None, _) => {
            lemma_sp_digits_none(s, i);
        },
        (Some(w), None) => {
            let wl = print_nat(w as nat).len() as int;
            assert(s.subrange(i, i + wl) =~= print_nat(w as nat));
            lemma_sp_digits_of_print(s, i, w);
        },
        (Some(w), Some(d)) => {
            let wp = print_nat(w as nat);
            let dp = print_nat(d as nat);
            let wl = wp.len() as int;
            let dl = dp.len() as int;
            assert(s.subrange(i, i + wl) =~= wp) by {
                assert forall|k: int| 0 <= k < wl implies #[trigger] s.subrange(i, i + wl)[k]
                    == wp[k] by {
                    assert(s.subrange(i, i + l)[k] == print_int_digits(ow, od)[k]);
                }
            }
            assert(s[i + wl] == print_int_digits(ow, od)[wl]);
            assert(s[i + wl] == '.');
            lemma_sp_digits_of_print(s, i, w);
            assert(s.subrange(i + wl + 1, i + wl + 1 + dl) =~= dp) by {
                assert forall|k: int|
                    0 <= k < dl implies #[trigger] s.subrange(i + wl + 1, i + wl + 1 + dl)[k]
                    == dp[k] by {
                    assert(s.subrange(i, i + l)[k + wl + 1] == print_int_digits(ow, od)[k + wl
                        + 1]);
                }
            }
            lemma_sep_char_facts(s[i + l]);
            assert(l == wl + 1 + dl);
            lemma_sp_digits_of_print(s, i + wl + 1, d);
        },
    }
}

/// Reading the width part of a real descriptor where its print stands
/// gives the width parts back.
pub proof fn lemma_real_format_of_print(
    s: Seq<char>,
    i: int,
    ow: Option<usize>,
    od: Option<usize>,
    oe: Option<usize>,
)
    requires
        0 <= i,
        ow matches Some(w) ==> w >= 1,
        od is Some ==> ow is Some,
        oe is Some ==> od is Some,
        oe matches Some(e) ==> e >= 1,
        i + real_digits(ow, od, oe).len() < s.len(),
        s.subrange(i, i + real_digits(ow, od, oe).len()) == real_digits(ow, od, oe),
        is_sep_char(s[i + real_digits(ow, od, oe).len()]),
    ensures
        sp_real_format(s, i) == Ok::<((Option<usize>, Option<usize>, Option<usize>), int), ParseError>(
            ((ow, od, oe), i + real_digits(ow, od, oe).len()),
        ),
{
    let l = real_digits(ow, od, oe).len() as int;
    lemma_sep_char_facts(s[i + l]);
    match (ow, od, oe) {
        (None, _, _) => {
            lemma_sp_digits_none(s, i);
        },
        (Some(w), None, _) => {
            assert(s.subrange(i, i + print_nat(w as nat).len()) =~= print_nat(w as nat));
            lemma_sp_digits_of_print(s, i, w);
        },
        (Some(w), Some(d), None) => {
            let wp = print_nat(w as nat);
            let dp = print_nat(d as nat);
            let wl = wp.len() as int;
            let dl = dp.len() as int;
            assert(s.subrange(i, i + wl) =~= wp) by {
                assert forall|k: int| 0 <= k < wl implies #[trigger] s.subrange(i, i + wl)[k]
                    == wp[k] by {
                    assert(s.subrange(i, i + l)[k] == real_digits(ow, od, oe)[k]);
                }
            }
            assert(s[i + wl] == real_digits(ow, od, oe)[wl]);
            lemma_sp_digits_of_print(s, i, w);
            assert(s.subrange(i + wl + 1, i + wl + 1 + dl) =~= dp) by {
                assert forall|k: int|
                    0 <= k < dl implies #[trigger] s.subrange(i + wl + 1, i + wl + 1 + dl)[k]
                    == dp[k] by {
                    assert(s.subrange(i, i + l)[k + wl + 1] == real_digits(ow, od, oe)[k + wl + 1]);
                }
            }
            assert(l == wl + 1 + dl);
            lemma_sp_digits_of_print(s, i + wl + 1, d);
        },
        (Some(w), Some(d), Some(e)) => {
            let wp = print_nat(w as nat);
            let dp = print_nat(d as nat);
            let ep = print_nat(e as nat);
            let wl = wp.len() as int;
            let dl = dp.len() as int;
            let el = ep.len() as int;
            assert(s.subrange(i, i + wl) =~= wp) by {
                assert forall|k: int| 0 <= k < wl implies #[trigger] s.subrange(i, i + wl)[k]
                    == wp[k] by {
                    assert(s.subrange(i, i + l)[k] == real_digits(ow, od, oe)[k]);
                }
            }
            assert(s[i + wl] == real_digits(ow, od, oe)[wl]);
            lemma_sp_digits_of_print(s, i, w);
            assert(s.subrange(i + wl + 1, i + wl + 1 + dl) =~= dp) by {
                assert forall|k: int|
                    0 <= k < dl implies #[trigger] s.subrange(i + wl + 1, i + wl + 1 + dl)[k]
                    == dp[k] by {
                    assert(s.subrange(i, i + l)[k + wl + 1] == real_digits(ow, od, oe)[k + wl + 1]);
                }
            }
            assert(s[i + wl + 1 + dl] == real_digits(ow, od, oe)[wl + 1 + dl]);
            assert(s[i + wl + 1 + dl] == 'E');
            lemma_sp_digits_of_print(s, i + wl + 1, d);
            assert(s.subrange(i + wl + 1 + dl + 1, i + l) =~= ep) by {
                assert forall|k: int|
                    0 <= k < el implies #[trigger] s.subrange(i + wl + 1 + dl + 1, i + l)[k]
                    == ep[k] by {
                    assert(s.subrange(i, i + l)[k + wl + 1 + dl + 1] == real_digits(ow, od, oe)[k
                        + wl + 1 + dl + 1]);
                }
            }
            assert(l == wl + 1 + dl + 1 + el);
            lemma_sp_digits_of_print(s, i + wl + 1 + dl + 1, e);
        },
    }
}

/// The width parts a real descriptor prints after its letter.
pub open spec fn real_digits(ow: Option<usize>, od: Option<usize>, oe: Option<usize>) -> Seq<
    char,
> {
    match (ow, od, oe) {
        (None, _, _) => Seq::empty(),
        (Some(w), None, _) => print_nat(w as nat),
        (Some(w), Some(d), None) => print_nat(w as nat) + seq!['.'] + print_nat(d as nat),
        (Some(w), Some(d), Some(e)) => print_nat(w as nat) + seq!['.'] + print_nat(d as nat)
            + seq!['E'] + print_nat(e as nat),
    }
}

/// Reading the width of a logical or character descriptor where its print
/// stands gives the width back.
pub proof fn lemma_opt_width_of_print(s: Seq<char>, i: int, ow: Option<usize>)
    requires
        0 <= i,
        ow matches Some(w) ==> w >= 1,
        i + opt_width_digits(ow).len() < s.len(),
        s.subrange(i, i + opt_width_digits(ow).len()) == opt_width_digits(ow),
        is_sep_char(s[i + opt_width_digits(ow).len()]),
    ensures
        sp_opt_width(s, i) == Ok::<(Option<usize>, int), ParseError>(
            (ow, i + opt_width_digits(ow).len()),
        ),
{
    lemma_sep_char_facts(s[i + opt_width_digits(ow).len()]);
    match ow {
        None => {
            lemma_sp_digits_none(s, i);
        },
        Some(w) => {
            assert(s.subrange(i, i + print_nat(w as nat).len()) =~= print_nat(w as nat));
            lemma_sp_digits_of_print(s, i, w);
        },
    }
}

/// The width a logical or character descriptor prints after its letter.
pub open spec fn opt_width_digits(ow: Option<usize>) -> Seq<char> {
    match ow {
        None => Seq::empty(),
        Some(w) => print_nat(w as nat),
    }
}

/// Splitting a matched concatenation splits into matched halves.
pub proof fn lemma_subrange_split(s: Seq<char>, i: int, a: Seq<char>, b: Seq<char>)
    requires
        0 <= i,
        i + a.len() + b.len() <= s.len(),
        s.subrange(i, i + a.len() + b.len()) == a + b,
    ensures
        s.subrange(i, i + a.len()) == a,
        s.subrange(i + a.len(), i + a.len() + b.len()) == b,
{
    assert forall|k: int| 0 <= k < a.len() implies #[trigger] s.subrange(i, i + a.len())[k]
        == a[k] by {
        assert(s.subrange(i, i + a.len() + b.len())[k] == (a + b)[k]);
    }
    assert(s.subrange(i, i + a.len()) =~= a);
    assert forall|k: int|
        0 <= k < b.len() implies #[trigger] s.subrange(i + a.len(), i + a.len() + b.len())[k]
        == b[k] by {
        assert(s.subrange(i + a.len(), i + a.len() + b.len())[k] == s[i + a.len() + k]);
        assert(s.subrange(i, i + a.len() + b.len())[a.len() + k] == s[i + a.len() + k]);
        assert((a + b)[a.len() + k] == b[k]);
    }
    assert(s.subrange(i + a.len(), i + a.len() + b.len()) =~= b);
}

/// The repeat count the printed form of an item carries before its
/// descriptor character.
pub open spec fn item_rep(n: FNode) -> Option<usize> {
    match n {
        FNode::Repeat(r, b) => Some(r),
        FNode::Scale(x) => Some(x as usize),
        FNode::Radix(r) => Some(r),
        _ => None,
    }
}

/// The printed descriptor of an item, after any repeat count.
pub open spec fn item_desc(n: FNode) -> Seq<char> {
    match n {
        FNode::Repeat(r, b) => print_node(*b),
        FNode::Scale(x) => seq!['P'],
        FNode::Radix(r) => seq!['R'],
        _ => print_node(n),
    }
}

/// Whether parsing the item leaves the slash separator context behind.
pub open spec fn item_slash(n: FNode) -> bool {
    match n {
        FNode::NewLine => true,
        FNode::Repeat(r, b) => *b is NewLine,
        _ => false,
    }
}

/// Reading one descriptor item where its print stands, with its repeat
/// count already read, gives the item back and lands on the separator.
#[verifier::rlimit(100)]
#[verifier::spinoff_prover]
pub proof fn lemma_item_node_of_print(s: Seq<char>, j: int, n: FNode)
    requires
        wf_node(n),
        !(n is Group),
        !(n matches FNode::Repeat(r, b) && *b is Group),
        !(n matches FNode::Scale(x) && x < 0),
        0 <= j,
        j + item_desc(n).len() < s.len(),
        s.subrange(j, j + item_desc(n).len()) == item_desc(n),
        item_slash(n) || is_sep_char(s[j + item_desc(n).len()]),
    ensures
        sp_item_node(s, j, item_rep(n)) == Ok::<((FNode, bool), int), ParseError>(
            ((n, item_slash(n)), j + item_desc(n).len()),
        ),
{
    reveal(sp_item_node);
    let desc = item_desc(n);
    let l = desc.len() as int;
    let cur = j + 1;
    if !item_slash(n) {
        lemma_sep_char_facts(s[j + l]);
    }
    let leaf = match n {
        FNode::Repeat(r, b) => *b,
        _ => n,
    };
    assert(wf_node(leaf));
    assert(s[j] == desc[0]);
    match leaf {
        FNode::NewLine => {},
        FNode::SkipChar => {},
        FNode::SuppressNewLine => {},
        FNode::Terminate => {},
        FNode::RemainingChars => {},
        FNode::BlankControl(t) => {
            match t {
                BlankType::B => {
                    assert(s[cur] == s[j + l]);
                },
                BlankType::BZ => {
                    assert(s[cur] == desc[1]);
                },
                BlankType::BN => {
                    assert(s[cur] == desc[1]);
                },
            }
        },
        FNode::AbsColumn(c0) => {
            let digs = print_nat(c0 as nat);
            assert(desc =~= seq!['T'] + digs);
            lemma_subrange_split(s, j, seq!['T'], digs);
            assert(s.subrange(cur, cur + digs.len()) == digs);
            assert(s[cur] == digs[0]);
            lemma_print_nat_digits(c0 as nat);
            assert(is_dec_digit(s[cur]));
            assert(skip_ws(s, cur) == cur);
            lemma_sp_digits_of_print(s, cur, c0);
        },
        FNode::RelColumn(w) => {
            if w >= 0 {
                let digs = print_nat(w as nat);
                assert(desc =~= seq!['T', 'R'] + digs);
                lemma_subrange_split(s, j, seq!['T', 'R'], digs);
                assert(s[cur] == (seq!['T', 'R'])[1]);
                lemma_print_nat_digits(w as nat);
                assert(s.subrange(j + 2, j + 2 + digs.len()) == digs);
                assert(skip_ws(s, j + 2) == j + 2) by {
                    assert(s[j + 2] == digs[0]);
                }
                assert((w as usize) as nat == w as nat);
                lemma_sp_digits_of_print(s, j + 2, w as usize);
            } else {
                let mag = (-(w as int)) as nat;
                let digs = print_nat(mag);
                assert(desc =~= seq!['T', 'L'] + digs);
                lemma_subrange_split(s, j, seq!['T', 'L'], digs);
                assert(s[cur] == (seq!['T', 'L'])[1]);
                lemma_print_nat_digits(mag);
                assert(s.subrange(j + 2, j + 2 + digs.len()) == digs);
                assert(skip_ws(s, j + 2) == j + 2) by {
                    assert(s[j + 2] == digs[0]);
                }
                assert(mag <= isize::MAX);
                assert((mag as usize) as nat == mag);
                lemma_sp_digits_of_print(s, j + 2, mag as usize);
                assert((-((mag as usize) as int)) as isize == w);
            }
        },
        FNode::Literal(t) => {
            assert(desc =~= seq!['\''] + esc_quotes(t) + seq!['\'']);
            assert(s[j] == '\'');
            assert(s.subrange(cur, cur + esc_quotes(t).len()) =~= esc_quotes(t)) by {
                assert forall|k: int|
                    0 <= k < esc_quotes(t).len() implies #[trigger] s.subrange(
                    cur,
                    cur + esc_quotes(t).len(),
                )[k] == esc_quotes(t)[k] by {
                    assert(s.subrange(j, j + l)[k + 1] == desc[k + 1]);
                }
            }
            assert(s[cur + esc_quotes(t).len()] == desc[l - 1]);
            lemma_quoted_of_print(s, cur, t);
        },
        FNode::Str(ow) => {
            let digs = opt_width_digits(ow);
            assert(desc =~= seq!['A'] + digs);
            lemma_subrange_split(s, j, seq!['A'], digs);
            lemma_opt_width_of_print(s, cur, ow);
        },
        FNode::Bool(ow) => {
            let digs = opt_width_digits(ow);
            assert(desc =~= seq!['L'] + digs);
            lemma_subrange_split(s, j, seq!['L'], digs);
            lemma_opt_width_of_print(s, cur, ow);
        },
        FNode::Int(ow, od) => {
            let digs = print_int_digits(ow, od);
            assert(desc =~= seq!['I'] + digs);
            lemma_subrange_split(s, j, seq!['I'], digs);
            lemma_int_format_of_print(s, cur, ow, od);
        },
        FNode::Oct(ow, od) => {
            let digs = print_int_digits(ow, od);
            assert(desc =~= seq!['O'] + digs);
            lemma_subrange_split(s, j, seq!['O'], digs);
            lemma_int_format_of_print(s, cur, ow, od);
        },
        FNode::Hex(ow, od) => {
            let digs = print_int_digits(ow, od);
            assert(desc =~= seq!['Z'] + digs);
            lemma_subrange_split(s, j, seq!['Z'], digs);
            lemma_int_format_of_print(s, cur, ow, od);
        },
        FNode::Real(f, ow, od, oe) => {
            let digs = real_digits(ow, od, oe);
            assert(desc =~= seq![real_letter(f)] + digs);
            lemma_subrange_split(s, j, seq![real_letter(f)], digs);
            assert(real_of_char(real_letter(f)) == f);
            lemma_real_format_of_print(s, cur, ow, od, oe);
        },
        FNode::Scale(x) => {
            assert(s[j] == 'P');
            assert(x as usize <= isize::MAX as usize);
            assert((x as usize) as isize == x);
        },
        FNode::Radix(r) => {
            assert(s[j] == 'R');
        },
        FNode::Group(_) => {},
        FNode::Repeat(..) => {},
    }
}

/// What the printer puts between a finished item and the next one: a
/// comma and a space, unless a slash stands on either side or nothing
/// follows.
pub open spec fn sep_chunk(prev: FNode, v: Seq<FNode>) -> Seq<char> {
    if v.len() > 0 && !(prev is NewLine) && !(v[0] is NewLine) {
        seq![',', ' ']
    } else {
        Seq::empty()
    }
}

/// What remains of a printed group body at a loop head: the leftover space
/// of a consumed separator, the remaining items, and the closing
/// parenthesis.
pub open spec fn rem_print(todo: Seq<FNode>, wc: bool) -> Seq<char> {
    (if wc {
        seq![' ']
    } else {
        Seq::empty()
    }) + print_items(todo, true, false) + seq![')']
}

/// The initial flags of a printed item run only decide its leading
/// separator.
pub proof fn lemma_print_items_flags(v: Seq<FNode>, sc: bool, sl: bool)
    ensures
        print_items(v, sc, sl) == (if v.len() > 0 && !(sc || v[0] is NewLine) && !sl {
            seq![',', ' ']
        } else {
            Seq::<char>::empty()
        }) + print_items(v, true, false),
{
    if v.len() == 0 {
        assert(Seq::<char>::empty() + print_items(v, true, false) =~= print_items(v, sc, sl));
    } else {
        let sep1: Seq<char> = if !(sc || v[0] is NewLine) && !sl {
            seq![',', ' ']
        } else {
            Seq::empty()
        };
        assert(print_items(v, sc, sl) == sep1 + print_node(v[0]) + print_items(
            v.drop_first(),
            false,
            v[0] is NewLine,
        ));
        assert(print_items(v, true, false) == Seq::<char>::empty() + print_node(v[0])
            + print_items(v.drop_first(), false, v[0] is NewLine));
        assert(sep1 + (Seq::<char>::empty() + print_node(v[0]) + print_items(
            v.drop_first(),
            false,
            v[0] is NewLine,
        )) =~= print_items(v, sc, sl));
    }
}

/// A printed node is never empty and starts with nothing a separator scan
/// could take for its own: no whitespace, no comma, no closing
/// parenthesis.
pub proof fn lemma_print_first(n: FNode)
    requires
        wf_node(n),
    ensures
        print_node(n).len() >= 1,
        !is_format_ws(print_node(n)[0]),
        print_node(n)[0] != ',',
        print_node(n)[0] != ')',
    decreases n,
{
    match n {
        FNode::AbsColumn(w) => {
            lemma_print_nat_digits(w as nat);
        },
        FNode::RelColumn(w) => {
        },
        FNode::Radix(x) => {
            lemma_print_nat_digits(x as nat);
            assert(print_node(n)[0] == print_nat(x as nat)[0]);
            assert(is_dec_digit(print_nat(x as nat)[0]));
        },
        FNode::Scale(x) => {
            if x >= 0 {
                lemma_print_nat_digits(x as nat);
                assert(print_node(n)[0] == print_nat(x as nat)[0]);
                assert(is_dec_digit(print_nat(x as nat)[0]));
            } else {
                assert(print_node(n)[0] == '-');
            }
        },
        FNode::Repeat(k, b) => {
            lemma_print_nat_digits(k as nat);
            assert(print_node(n)[0] == print_nat(k as nat)[0]);
            assert(is_dec_digit(print_nat(k as nat)[0]));
        },
        _ => {},
    }
}

/// After one item of a printed group body: the separator is taken and the
/// rest of the members parse, closing the group.
#[verifier::rlimit(100)]
#[verifier::spinoff_prover]
pub proof fn lemma_tail_of_print(
    s: Seq<char>,
    t: int,
    acc2: Seq<FNode>,
    prev: FNode,
    todo: Seq<FNode>,
    sl: bool,
)
    requires
        0 <= t,
        wf_nodes(todo),
        prev is NewLine ==> sl,
        ({
            let r = sep_chunk(prev, todo) + print_items(todo, true, false) + seq![')'];
            t + r.len() <= s.len() && s.subrange(t, t + r.len()) == r
        }),
    ensures
        ({
            let r = sep_chunk(prev, todo) + print_items(todo, true, false) + seq![')'];
            sp_group_tail(s, t, acc2, sl) == Ok::<(FNode, int), ParseError>(
                (FNode::Group(acc2 + todo), t + r.len()),
            )
        }),
    decreases todo, 3nat,
{
    let sep = sep_chunk(prev, todo);
    let items_p = print_items(todo, true, false);
    let r = sep + items_p + seq![')'];
    let rl = r.len() as int;
    if sep.len() > 0 {
        // a comma stands here: the tail takes it
        assert(s[t] == r[0]);
        assert(s[t] == ',');
        assert(skip_ws(s, t) == t);
        assert(s.subrange(t + 1, t + rl) =~= seq![' '] + items_p + seq![')']) by {
            assert forall|k: int| 0 <= k < rl - 1 implies #[trigger] s.subrange(t + 1, t + rl)[k]
                == (seq![' '] + items_p + seq![')'])[k] by {
                assert(s.subrange(t, t + rl)[k + 1] == r[k + 1]);
            }
        }
        assert(seq![' '] + items_p + seq![')'] =~= rem_print(todo, true));
        lemma_items_of_print(s, t + 1, todo, acc2, true, sl);
    } else {
        // nothing or a slash follows: no comma to take
        assert(r =~= rem_print(todo, false));
        if todo.len() > 0 {
            lemma_print_items_flags(todo, true, false);
            lemma_print_first(todo[0]);
            assert(items_p[0] == print_node(todo[0])[0]);
            assert(s[t] == r[0]);
            assert(r[0] == items_p[0]);
            assert(!is_format_ws(s[t]) && s[t] != ',');
            assert(skip_ws(s, t) == t);
        } else {
            assert(s[t] == r[0]);
            assert(s[t] == ')');
            assert(skip_ws(s, t) == t);
        }
        lemma_items_of_print(s, t, todo, acc2, false, sl);
    }
}

/// A printed group body parses back to exactly its members.
pub proof fn lemma_items_of_print(
    s: Seq<char>,
    i: int,
    todo: Seq<FNode>,
    acc: Seq<FNode>,
    wc: bool,
    wsl: bool,
)
    requires
        0 <= i,
        wf_nodes(todo),
        i + rem_print(todo, wc).len() <= s.len(),
        s.subrange(i, i + rem_print(todo, wc).len()) == rem_print(todo, wc),
        (acc.len() != 0 && !wc && !wsl && todo.len() > 0) ==> todo[0] is NewLine,
        wc ==> todo.len() > 0,
    ensures
        sp_group_body(s, i, acc, wc, wsl) == Ok::<(FNode, int), ParseError>(
            (FNode::Group(acc + todo), i + rem_print(todo, wc).len()),
        ),
    decreases todo, 2nat,
{
    if todo.len() == 0 {
        lemma_items_of_print_empty(s, i, todo, acc, wc, wsl);
    } else {
        lemma_items_of_print_cons(s, i, todo, acc, wc, wsl);
    }
}

/// The empty remainder of a printed group body: only the closing
/// parenthesis is left, and it closes the group.
#[verifier::rlimit(100)]
#[verifier::spinoff_prover]
proof fn lemma_items_of_print_empty(
    s: Seq<char>,
    i: int,
    todo: Seq<FNode>,
    acc: Seq<FNode>,
    wc: bool,
    wsl: bool,
)
    requires
        0 <= i,
        todo.len() == 0,
        i + rem_print(todo, wc).len() <= s.len(),
        s.subrange(i, i + rem_print(todo, wc).len()) == rem_print(todo, wc),
        !wc,
    ensures
        sp_group_body(s, i, acc, wc, wsl) == Ok::<(FNode, int), ParseError>(
            (FNode::Group(acc + todo), i + rem_print(todo, wc).len()),
        ),
    decreases todo, 0nat,
{
    let r = rem_print(todo, wc);
    let rl = r.len() as int;
    let items_p = print_items(todo, true, false);
    assert(items_p.len() == 0);
    assert(s[i] == r[0]);
    assert(s[i] == ')');
    assert(skip_ws(s, i) == i);
    lemma_sp_digits_none(s, i);
    assert(sp_group_item(s, i, acc, wc, wsl, None) == Ok::<(FNode, int), ParseError>(
        (FNode::Group(acc), i + 1),
    ));
    assert(acc + todo =~= acc);
    assert(i + 1 == i + rl);
}

/// One more item of a printed group body: the item parses, its separator
/// is taken, and the rest closes the group.
#[verifier::rlimit(100)]
#[verifier::spinoff_prover]
proof fn lemma_items_of_print_cons(
    s: Seq<char>,
    i: int,
    todo: Seq<FNode>,
    acc: Seq<FNode>,
    wc: bool,
    wsl: bool,
)
    requires
        0 <= i,
        todo.len() > 0,
        wf_nodes(todo),
        i + rem_print(todo, wc).len() <= s.len(),
        s.subrange(i, i + rem_print(todo, wc).len()) == rem_print(todo, wc),
        (acc.len() != 0 && !wc && !wsl) ==> todo[0] is NewLine,
    ensures
        sp_group_body(s, i, acc, wc, wsl) == Ok::<(FNode, int), ParseError>(
            (FNode::Group(acc + todo), i + rem_print(todo, wc).len()),
        ),
    decreases todo, 1nat,
{
    let r = rem_print(todo, wc);
    let rl = r.len() as int;
    let i1: int = if wc {
        i + 1
    } else {
        i
    };
    let items_p = print_items(todo, true, false);
    if wc {
        assert(s[i] == r[0]);
        assert(s[i] == ' ');
    }
    assert(s.subrange(i1, i + rl) =~= items_p + seq![')']) by {
        assert forall|k: int| 0 <= k < rl - (i1 - i) implies #[trigger] s.subrange(i1, i + rl)[k]
            == (items_p + seq![')'])[k] by {
            assert(s.subrange(i, i + rl)[k + (i1 - i)] == r[k + (i1 - i)]);
        }
    }
    let n = todo[0];
    let todo2 = todo.drop_first();
    assert(wf_node(n));
    assert(wf_nodes(todo2)) by {
        assert forall|k: int| 0 <= k < todo2.len() implies wf_node(#[trigger] todo2[k]) by {
            assert(todo2[k] == todo[k + 1]);
        }
    }
    let np = print_node(n);
    let rest2 = print_items(todo2, false, n is NewLine);
    lemma_print_items_flags(todo2, false, n is NewLine);
    let sep2 = sep_chunk(n, todo2);
    assert(rest2 == sep2 + print_items(todo2, true, false));
    assert(items_p == np + rest2);
    lemma_print_first(n);
    assert(s.subrange(i1, i1 + np.len()) == np && s.subrange(i1 + np.len(), i + rl - 1)
        == rest2) by {
        assert(items_p + seq![')'] =~= np + (rest2 + seq![')']));
        lemma_subrange_split(s, i1, np, rest2 + seq![')']);
        lemma_subrange_split(s, i1 + np.len(), rest2, seq![')']);
        assert(s.subrange(i1 + np.len(), i1 + np.len() + (rest2 + seq![')']).len()) == rest2
            + seq![')']);
    }
    let t = i1 + np.len() as int;
    assert(s.subrange(t, i + rl) =~= sep2 + print_items(todo2, true, false) + seq![')']) by {
        assert forall|k: int| 0 <= k < i + rl - t implies #[trigger] s.subrange(t, i + rl)[k]
            == (sep2 + print_items(todo2, true, false) + seq![')'])[k] by {
            if k < rest2.len() {
                assert(s.subrange(t, i + rl - 1)[k] == rest2[k]);
            } else {
                assert(s.subrange(i, i + rl)[t - i + k] == r[t - i + k]);
            }
        }
    }
    assert(s[i1] == np[0]);
    assert(skip_ws(s, i) == i1);
    // after a non-slash item's print a separator stands
    assert(t < s.len() && (item_slash(n) || is_sep_char(s[t]))) by {
        assert(t < i + rl);
        assert(s.subrange(t, i + rl)[0] == s[t]);
        let chunk = sep2 + print_items(todo2, true, false) + seq![')'];
        assert(s[t] == chunk[0]);
        if !item_slash(n) {
            if todo2.len() > 0 && sep2.len() == 0 {
                lemma_print_first(todo2[0]);
                let np2 = print_node(todo2[0]);
                assert(print_items(todo2, true, false) == Seq::<char>::empty() + np2
                    + print_items(todo2.drop_first(), false, todo2[0] is NewLine));
                assert(print_items(todo2, true, false)[0] == np2[0]);
                assert(chunk[0] == print_items(todo2, true, false)[0]);
                assert(todo2[0] is NewLine || n is NewLine);
                assert(todo2[0] is NewLine);
                assert(np2[0] == '/');
            } else if todo2.len() > 0 {
                assert(chunk[0] == sep2[0]);
                assert(sep2[0] == ',');
            } else {
                assert(sep2.len() == 0);
                assert(print_items(todo2, true, false).len() == 0);
                assert(chunk[0] == ')');
            }
        }
    }
    lemma_item_steps(s, i1, n, acc, wc, wsl);
    lemma_tail_of_print(s, t, acc.push(n), n, todo2, item_slash(n));
    assert(acc.push(n) + todo2 =~= acc + todo);
    assert(i + rl == t + (sep2 + print_items(todo2, true, false) + seq![')']).len());
}

/// One printed item carries the group body from its loop head to the
/// separator handling, with the item appended.
#[verifier::rlimit(100)]
#[verifier::spinoff_prover]
pub proof fn lemma_item_steps(
    s: Seq<char>,
    i1: int,
    n: FNode,
    acc: Seq<FNode>,
    wc: bool,
    wsl: bool,
)
    requires
        0 <= i1,
        wf_node(n),
        i1 + print_node(n).len() < s.len(),
        s.subrange(i1, i1 + print_node(n).len()) == print_node(n),
        item_slash(n) || is_sep_char(s[i1 + print_node(n).len()]),
        skip_ws(s, i1) == i1,
        (acc.len() != 0 && !wc && !wsl) ==> n is NewLine,
    ensures
        sp_group_body(s, i1, acc, wc, wsl) == sp_group_tail(
            s,
            i1 + print_node(n).len(),
            acc.push(n),
            item_slash(n),
        ),
    decreases n, 3nat,
{
    let np = print_node(n);
    let t = i1 + np.len() as int;
    lemma_print_first(n);
    assert(s[i1] == np[0]);
    if !item_slash(n) {
        lemma_sep_char_facts(s[t]);
    }
    match n {
        FNode::Scale(x) => {
            if x < 0 {
                let mag = (-(x as int)) as nat;
                let digs = print_nat(mag);
                assert(np =~= (seq!['-'] + digs) + seq!['P']);
                assert(np =~= seq!['-'] + (digs + seq!['P']));
                lemma_subrange_split(s, i1, seq!['-'] + digs, seq!['P']);
                lemma_subrange_split(s, i1, seq!['-'], digs + seq!['P']);
                assert(s[i1] == '-');
                assert(s.subrange(i1 + 1, i1 + 1 + digs.len()) =~= digs) by {
                    assert forall|k: int|
                        0 <= k < digs.len() implies #[trigger] s.subrange(
                        i1 + 1,
                        i1 + 1 + digs.len(),
                    )[k] == digs[k] by {
                        assert(s.subrange(i1 + 1, i1 + (digs + seq!['P']).len() + 1)[k] == (digs
                            + seq!['P'])[k]);
                    }
                }
                assert(s[i1 + 1 + digs.len()] == np[np.len() - 1]);
                assert(s[i1 + 1 + digs.len()] == 'P');
                assert(mag <= isize::MAX);
                lemma_sp_digits_of_print(s, i1 + 1, mag as usize);
                assert(skip_ws(s, i1 + 1 + digs.len()) == i1 + 1 + digs.len());
                assert(sp_neg_scale(s, i1) == Ok::<(isize, int), ParseError>((x, t))) by {
                    assert((-((mag as usize) as int)) as isize == x);
                }
            } else {
                let digs = print_nat(x as nat);
                assert(np =~= digs + seq!['P']);
                lemma_subrange_split(s, i1, digs, seq!['P']);
                lemma_print_nat_digits(x as nat);
                assert(s[i1] != '-' && s[i1] != ')' && s[i1] != '/');
                assert(s[t - 1] == np[np.len() - 1]);
                assert(s[t - 1] == 'P');
                lemma_sp_digits_of_print(s, i1, x as usize);
                assert(skip_ws(s, t - 1) == t - 1);
                assert(item_desc(n) =~= seq!['P']);
                assert(s.subrange(t - 1, t) =~= item_desc(n));
                lemma_item_node_of_print(s, t - 1, n);
                reveal(sp_item_node);
            }
        },
        FNode::Radix(x) => {
            let digs = print_nat(x as nat);
            assert(np =~= digs + seq!['R']);
            lemma_subrange_split(s, i1, digs, seq!['R']);
            lemma_print_nat_digits(x as nat);
            assert(s[i1] != '-' && s[i1] != ')' && s[i1] != '/');
            assert(s[t - 1] == np[np.len() - 1]);
            assert(s[t - 1] == 'R');
            lemma_sp_digits_of_print(s, i1, x);
            assert(skip_ws(s, t - 1) == t - 1);
            assert(item_desc(n) =~= seq!['R']);
            assert(s.subrange(t - 1, t) =~= item_desc(n));
            lemma_item_node_of_print(s, t - 1, n);
            reveal(sp_item_node);
        },
        FNode::Group(gm) => {
            assert(s[i1] == '(');
            lemma_sp_digits_none(s, i1);
            assert(decreases_to!(n => gm));
            lemma_group_of_print(s, i1, gm);
        },
        FNode::Repeat(rr, b) => {
            let digs = print_nat(rr as nat);
            let bp = print_node(*b);
            assert(np =~= digs + bp);
            lemma_subrange_split(s, i1, digs, bp);
            lemma_print_nat_digits(rr as nat);
            assert(wf_node(*b));
            lemma_print_first(*b);
            assert(s[i1 + digs.len()] == bp[0]);
            let bfirst = bp[0];
            assert(!is_dec_digit(bfirst)) by {
                lemma_repeatable_first(*b);
            }
            lemma_sp_digits_of_print(s, i1, rr);
            assert(skip_ws(s, i1 + digs.len()) == i1 + digs.len());
            if *b is Group {
                assert(bfirst == '(');
                assert(decreases_to!(n => *b));
                assert(decreases_to!(*b => b->Group_0));
                lemma_group_of_print(s, i1 + digs.len(), b->Group_0);
                assert(FNode::Repeat(rr, Box::new(FNode::Group(b->Group_0))) == n);
            } else {
                assert(bfirst != '(') by {
                    lemma_repeatable_first(*b);
                }
                assert(item_desc(n) == bp);
                assert(s.subrange(i1 + digs.len(), t) == bp);
                lemma_item_node_of_print(s, i1 + digs.len(), n);
                reveal(sp_item_node);
                assert(bfirst != ')' && bfirst != ',') by {
                    lemma_repeatable_first(*b);
                }
            }
        },
        _ => {
            // a plain item: no repeat digits stand before it
            assert(!is_dec_digit(np[0]) && np[0] != '-' && np[0] != '(') by {
                lemma_plain_first(n);
            }
            lemma_sp_digits_none(s, i1);
            assert(item_desc(n) == np);
            lemma_item_node_of_print(s, i1, n);
            reveal(sp_item_node);
        },
    }
}

/// The print of a repeatable node other than a group starts with its
/// descriptor letter or slash.
pub proof fn lemma_repeatable_first(b: FNode)
    requires
        wf_node(b),
        repeatable(b),
    ensures
        print_node(b).len() >= 1,
        !is_dec_digit(print_node(b)[0]),
        !(b is Group) ==> print_node(b)[0] != '(' && print_node(b)[0] != ')' && print_node(b)[0]
            != ',',
        b is Group ==> print_node(b)[0] == '(',
{
}

/// The print of an item that carries no repeat count starts with neither a
/// digit nor a sign nor an open parenthesis.
pub proof fn lemma_plain_first(n: FNode)
    requires
        wf_node(n),
        !(n is Group),
        !(n is Repeat),
        !(n is Scale),
        !(n is Radix),
    ensures
        print_node(n).len() >= 1,
        !is_dec_digit(print_node(n)[0]),
        print_node(n)[0] != '-',
        print_node(n)[0] != '(',
{
}

/// A printed group parses back to exactly its members.
#[verifier::rlimit(100)]
#[verifier::spinoff_prover]
pub proof fn lemma_group_of_print(s: Seq<char>, i: int, members: Seq<FNode>)
    requires
        0 <= i,
        wf_nodes(members),
        i + print_node(FNode::Group(members)).len() <= s.len(),
        s.subrange(i, i + print_node(FNode::Group(members)).len()) == print_node(
            FNode::Group(members),
        ),
    ensures
        sp_parse(s, i) == Ok::<(FNode, int), ParseError>(
            (FNode::Group(members), i + print_node(FNode::Group(members)).len()),
        ),
    decreases members, 4nat,
{
    let gp = print_node(FNode::Group(members));
    let gl = gp.len() as int;
    let items_p = print_items(members, true, false);
    assert(gp == seq!['('] + items_p + seq![')']);
    assert(s[i] == gp[0]);
    assert(s[i] == '(');
    assert(skip_ws(s, i) == i);
    assert(s.subrange(i + 1, i + gl) =~= items_p + seq![')']) by {
        assert forall|k: int| 0 <= k < gl - 1 implies #[trigger] s.subrange(i + 1, i + gl)[k] == (
        items_p + seq![')'])[k] by {
            assert(s.subrange(i, i + gl)[k + 1] == gp[k + 1]);
        }
    }
    assert(items_p + seq![')'] =~= rem_print(members, false));
    lemma_items_of_print(s, i + 1, members, Seq::empty(), false, false);
    assert(Seq::<FNode>::empty() + members =~= members);
}

/// Re-parsing the canonical print of any tree the parser produced gives
/// the same tree back: parse, print and parse again is parse.
pub proof fn lemma_parse_print_round_trip(s: Seq<char>)
    ensures
        sp_parse_format(s) matches Ok(f) ==> sp_parse_format(print_node(f)) == Ok::<
            FNode,
            ParseError,
        >(f),
{
    lemma_parse_wf(s, 0);
    match sp_parse_format(s) {
        Ok(f) => {
            let p = print_node(f);
            assert(p.subrange(0, p.len() as int) =~= p);
            lemma_group_of_print(p, 0, f->Group_0);
        },
        Err(_) => {},
    }
}

/// Pushing a well-formed node keeps the members well formed.
pub proof fn lemma_wf_push(v: Seq<FNode>, n: FNode)
    requires
        wf_nodes(v),
        wf_node(n),
    ensures
        wf_nodes(v.push(n)),
{
    assert forall|k: int| 0 <= k < v.push(n).len() implies wf_node(#[trigger] v.push(n)[k]) by {
        if k < v.len() {
            assert(v.push(n)[k] == v[k]);
        } else {
            assert(v.push(n)[k] == n);
        }
    }
}

/// A writer whose walk is spent without ever having placed a value
/// rejects the attempt to place one, whatever the value is: the value
/// plays no part in the fault.
pub proof fn lemma_data_without_format(m: crate::write::WriterModel)
    requires
        m.rest.len() == 0,
        !m.consumed,
    ensures
        crate::write::spec_write_constants(m, true).2 == Err::<(), crate::write::WriteErr>(
            crate::write::WriteErr::DataWithoutFormat,
        ),
{
}

} // verus!
