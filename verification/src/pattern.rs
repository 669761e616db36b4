//! The connection-pattern language and its expansion.
//!
//! A configuration line reads `<output pattern> > <input pattern>`. A pattern
//! is a bare port name, or `prefix[range-list]suffix` where the range list is
//! a comma-separated sequence of elements, each a literal token or `a-b` with
//! both bounds decimal numbers or both single ASCII letters. A line expands
//! to the positional pairing of the two sides' expansions.

use vstd::prelude::*;

use crate::text::{
    affix, affix_all, all_digits, alpha_range, alpha_values, chars_of, dec_val, digits_vec,
    find_char, first_idx, has_char, is_alpha, lemma_dec_str_canonical, lemma_dec_str_digits,
    lemma_dec_str_val, lemma_first_idx, letter_code, num_range, num_values,
    parse_decimal, seq_views, spec_is_alpha, spec_trim, split_all, split_all_char, split_at_char,
    str_views, string_of, strings_of, subvec, trim,
};

verus! {

/// Why a configuration line was rejected.
#[derive(Clone, Copy, Debug, PartialEq, Eq, Structural)]
pub enum ParseError {
    /// The line holds no `>` separator.
    MalformedConnection,
    /// A `[` has no closing `]`.
    UnbalancedBrackets,
    /// A range element's bounds are not two numbers or two letters, or a
    /// numeric bound does not fit the machine.
    BadRange,
    /// A comma stands in a pattern that has no bracket group.
    CommaOutsideBrackets,
    /// The two sides of the line expand to different numbers of names.
    UnbalancedConnection,
}

impl ParseError {
    /// A short description of the error, for reporting.
    pub fn message(&self) -> (r: &'static str)
        ensures
            *self == ParseError::MalformedConnection ==> r@ == "Malformed connection"@,
            *self == ParseError::UnbalancedBrackets ==> r@ == "Unbalanced brackets"@,
            *self == ParseError::BadRange ==> r@
                == "Incorrect range, must be two numbers or two letters"@,
            *self == ParseError::CommaOutsideBrackets ==> r@ == "Comma outside brackets"@,
            *self == ParseError::UnbalancedConnection ==> r@ == "Unbalanced connection"@,
    {
        match self {
            ParseError::MalformedConnection => "Malformed connection",
            ParseError::UnbalancedBrackets => "Unbalanced brackets",
            ParseError::BadRange => "Incorrect range, must be two numbers or two letters",
            ParseError::CommaOutsideBrackets => "Comma outside brackets",
            ParseError::UnbalancedConnection => "Unbalanced connection",
        }
    }
}

/// One desired connection: an output port name and an input port name.
#[derive(Clone, Debug, PartialEq, Eq)]
pub struct Conn {
    pub out: String,
    pub inp: String,
}

impl View for Conn {
    type V = (Seq<char>, Seq<char>);

    open spec fn view(&self) -> (Seq<char>, Seq<char>) {
        (self.out@, self.inp@)
    }
}

/// The name pairs a sequence of connections denotes.
pub open spec fn conns_view(cs: Seq<Conn>) -> Seq<(Seq<char>, Seq<char>)> {
    cs.map_values(|c: Conn| c@)
}

/// The values a trimmed range element denotes, before prefix and suffix are
/// attached: a literal element denotes itself; `a-b` denotes the inclusive
/// range, numeric bounds as decimal numerals, single-letter bounds by code
/// point. A numeric bound beyond `u64::MAX` is rejected as out of machine
/// range.
pub open spec fn elt_values(e: Seq<char>) -> Result<Seq<Seq<char>>, ParseError> {
    if !has_char(e, '-') {
        Ok(seq![e])
    } else {
        let l = e.take(first_idx(e, '-'));
        let r = e.skip(first_idx(e, '-') + 1);
        if l.len() > 0 && r.len() > 0 && all_digits(l) && all_digits(r) {
            if dec_val(l) <= u64::MAX as int && dec_val(r) <= u64::MAX as int {
                Ok(num_range(dec_val(l), dec_val(r)))
            } else {
                Err(ParseError::BadRange)
            }
        } else if l.len() == 1 && r.len() == 1 && spec_is_alpha(l[0]) && spec_is_alpha(r[0]) {
            Ok(alpha_range(l[0] as int, r[0] as int))
        } else {
            Err(ParseError::BadRange)
        }
    }
}

/// The names a trimmed range element contributes under a prefix and suffix.
pub open spec fn elt_expansion(e: Seq<char>, p: Seq<char>, sfx: Seq<char>) -> Result<
    Seq<Seq<char>>,
    ParseError,
> {
    match elt_values(e) {
        Ok(vs) => Ok(affix(p, vs, sfx)),
        Err(er) => Err(er),
    }
}

/// The names a range list contributes: each element is trimmed, expanded
/// under the prefix and suffix, and the results are concatenated in order.
/// The first failing element's error is the list's error.
pub open spec fn expand_elts(elts: Seq<Seq<char>>, p: Seq<char>, sfx: Seq<char>) -> Result<
    Seq<Seq<char>>,
    ParseError,
>
    decreases elts.len(),
{
    if elts.len() == 0 {
        Ok(Seq::empty())
    } else {
        match elt_expansion(spec_trim(elts[0]), p, sfx) {
            Ok(h) => match expand_elts(elts.skip(1), p, sfx) {
                Ok(t) => Ok(h + t),
                Err(e) => Err(e),
            },
            Err(e) => Err(e),
        }
    }
}

/// The names a whole pattern denotes. A pattern without `[` is a single
/// literal name, in which a comma is rejected; otherwise the text before the
/// first `[` is the prefix, the text between it and the first following `]`
/// is the range list, and the rest is the suffix.
pub open spec fn pattern_expansion(s: Seq<char>) -> Result<Seq<Seq<char>>, ParseError> {
    if !has_char(s, '[') {
        if has_char(s, ',') {
            Err(ParseError::CommaOutsideBrackets)
        } else {
            Ok(seq![s])
        }
    } else {
        let p = s.take(first_idx(s, '['));
        let rest = s.skip(first_idx(s, '[') + 1);
        if !has_char(rest, ']') {
            Err(ParseError::UnbalancedBrackets)
        } else {
            let rl = rest.take(first_idx(rest, ']'));
            let sfx = rest.skip(first_idx(rest, ']') + 1);
            expand_elts(split_all(rl, ','), p, sfx)
        }
    }
}

/// The pairs a configuration line denotes: both sides of the first `>` are
/// trimmed and expanded, and equal-length expansions are paired by position.
pub open spec fn line_expansion(s: Seq<char>) -> Result<Seq<(Seq<char>, Seq<char>)>, ParseError> {
    if !has_char(s, '>') {
        Err(ParseError::MalformedConnection)
    } else {
        let o = spec_trim(s.take(first_idx(s, '>')));
        let i = spec_trim(s.skip(first_idx(s, '>') + 1));
        match pattern_expansion(o) {
            Err(e) => Err(e),
            Ok(os) => match pattern_expansion(i) {
                Err(e) => Err(e),
                Ok(ins) => if os.len() == ins.len() {
                    Ok(os.zip_with(ins))
                } else {
                    Err(ParseError::UnbalancedConnection)
                },
            },
        }
    }
}

/// A string of length one whose character is an ASCII letter.
pub fn is_letter(s: &str) -> (r: bool)
    ensures
        r == (s@.len() == 1 && spec_is_alpha(s@[0])),
{
    let v = chars_of(s);
    v.len() == 1 && is_alpha(v[0])
}

/// A string all of whose characters are decimal digits; the empty string
/// counts.
pub fn is_number(s: &str) -> (r: bool)
    ensures
        r == all_digits(s@),
{
    let v = chars_of(s);
    digits_vec(&v)
}

/// The names a trimmed range element contributes under a prefix and suffix,
/// on character vectors.
fn expand_elt_vec(e: &Vec<char>, p: &Vec<char>, sfx: &Vec<char>) -> (r: Result<
    Vec<Vec<char>>,
    ParseError,
>)
    ensures
        match r {
            Ok(vs) => elt_expansion(e@, p@, sfx@) == Ok::<Seq<Seq<char>>, ParseError>(
                seq_views(vs@),
            ),
            Err(er) => elt_expansion(e@, p@, sfx@) == Err::<Seq<Seq<char>>, ParseError>(er),
        },
{
    match split_at_char(e, '-') {
        None => {
            let mut vals: Vec<Vec<char>> = Vec::new();
            vals.push(subvec(e, 0, e.len()));
            assert(e@.subrange(0, e@.len() as int) =~= e@);
            assert(seq_views(vals@) =~= seq![e@]);
            Ok(affix_all(p, &vals, sfx))
        },
        Some((l, rr)) => {
            proof {
                lemma_first_idx(e@, '-');
            }
            if l.len() > 0 && rr.len() > 0 && digits_vec(&l) && digits_vec(&rr) {
                match (parse_decimal(&l), parse_decimal(&rr)) {
                    (Some(a), Some(b)) => Ok(affix_all(p, &num_values(a, b), sfx)),
                    _ => Err(ParseError::BadRange),
                }
            } else if l.len() == 1 && rr.len() == 1 && is_alpha(l[0]) && is_alpha(rr[0]) {
                let ca = letter_code(l[0]);
                let cb = letter_code(rr[0]);
                Ok(affix_all(p, &alpha_values(ca, cb), sfx))
            } else {
                Err(ParseError::BadRange)
            }
        },
    }
}

/// The values of one range element, wrapped in `p` and `s`; the element is
/// expected to be already trimmed, as `parse_range` leaves it.
pub fn parse_range_elt(range: &str, p: &str, s: &str) -> (r: Result<Vec<String>, ParseError>)
    ensures
        match r {
            Ok(vs) => elt_expansion(range@, p@, s@) == Ok::<Seq<Seq<char>>, ParseError>(
                str_views(vs@),
            ),
            Err(er) => elt_expansion(range@, p@, s@) == Err::<Seq<Seq<char>>, ParseError>(er),
        },
{
    let e = chars_of(range);
    let pv = chars_of(p);
    let sv = chars_of(s);
    match expand_elt_vec(&e, &pv, &sv) {
        Ok(vs) => Ok(strings_of(&vs)),
        Err(er) => Err(er),
    }
}

/// The names a whole pattern denotes, on character vectors.
#[verifier::loop_isolation(false)]
fn expand_pattern_vec(s: &Vec<char>) -> (r: Result<Vec<Vec<char>>, ParseError>)
    ensures
        match r {
            Ok(vs) => pattern_expansion(s@) == Ok::<Seq<Seq<char>>, ParseError>(seq_views(vs@)),
            Err(er) => pattern_expansion(s@) == Err::<Seq<Seq<char>>, ParseError>(er),
        },
{
    match split_at_char(s, '[') {
        None => {
            match find_char(s, ',') {
                Some(_) => Err(ParseError::CommaOutsideBrackets),
                None => {
                    let mut vals: Vec<Vec<char>> = Vec::new();
                    vals.push(subvec(s, 0, s.len()));
                    assert(s@.subrange(0, s@.len() as int) =~= s@);
                    assert(seq_views(vals@) =~= seq![s@]);
                    Ok(vals)
                },
            }
        },
        Some((p, rest)) => {
            proof {
                lemma_first_idx(s@, '[');
            }
            match split_at_char(&rest, ']') {
                None => Err(ParseError::UnbalancedBrackets),
                Some((rl, sfx)) => {
                    proof {
                        lemma_first_idx(rest@, ']');
                    }
                    let ghost rlv = rl@;
                    let elts = split_all_char(rl, ',');
                    let ghost es = split_all(rlv, ',');
                    let mut acc: Vec<Vec<char>> = Vec::new();
                    proof {
                        assert(es.skip(0) =~= es);
                        match expand_elts(es, p@, sfx@) {
                            Ok(t0) => {
                                assert(seq_views(acc@) + t0 =~= t0);
                            },
                            Err(_) => {},
                        }
                    }
                    let mut i: usize = 0;
                    while i < elts.len()
                        invariant
                            i <= elts@.len(),
                            seq_views(elts@) == es,
                            match expand_elts(es.skip(i as int), p@, sfx@) {
                                Ok(t) => expand_elts(es, p@, sfx@) == Ok::<
                                    Seq<Seq<char>>,
                                    ParseError,
                                >(seq_views(acc@) + t),
                                Err(e) => expand_elts(es, p@, sfx@) == Err::<
                                    Seq<Seq<char>>,
                                    ParseError,
                                >(e),
                            },
                        decreases elts@.len() - i,
                    {
                        let t = trim(&elts[i]);
                        assert(es.skip(i as int)[0] == elts@[i as int]@);
                        assert(es.skip(i as int).skip(1) =~= es.skip(i + 1));
                        match expand_elt_vec(&t, &p, &sfx) {
                            Err(er) => {
                                proof {
                                    assert(expand_elts(es.skip(i as int), p@, sfx@) == Err::<
                                        Seq<Seq<char>>,
                                        ParseError,
                                    >(er));
                                    assert(expand_elts(es, p@, sfx@) == Err::<
                                        Seq<Seq<char>>,
                                        ParseError,
                                    >(er));
                                }
                                return Err(er);
                            },
                            Ok(mut vs) => {
                                let ghost pacc = seq_views(acc@);
                                let ghost pvs = seq_views(vs@);
                                let ghost prev = acc@;
                                let ghost vsv = vs@;
                                acc.append(&mut vs);
                                proof {
                                    assert forall|k: int| 0 <= k < acc@.len() implies seq_views(
                                        acc@,
                                    )[k] == (pacc + pvs)[k] by {
                                        if k < prev.len() {
                                            assert(acc@[k] == prev[k]);
                                        } else {
                                            assert(acc@[k] == vsv[k - prev.len()]);
                                        }
                                    }
                                    assert(seq_views(acc@) =~= pacc + pvs);
                                    if let Ok(t2) = expand_elts(es.skip(i + 1), p@, sfx@) {
                                        assert((pacc + pvs) + t2 =~= pacc + (pvs + t2));
                                    }
                                }
                            },
                        }
                        i += 1;
                    }
                    assert(es.skip(es.len() as int) =~= Seq::<Seq<char>>::empty());
                    assert(seq_views(acc@) + Seq::<Seq<char>>::empty() =~= seq_views(acc@));
                    Ok(acc)
                },
            }
        },
    }
}

/// The names a whole pattern denotes. The pattern is expected to be already
/// trimmed, as `parse_line` leaves it.
pub fn parse_range(s: &str) -> (r: Result<Vec<String>, ParseError>)
    ensures
        match r {
            Ok(vs) => pattern_expansion(s@) == Ok::<Seq<Seq<char>>, ParseError>(str_views(vs@)),
            Err(er) => pattern_expansion(s@) == Err::<Seq<Seq<char>>, ParseError>(er),
        },
{
    let v = chars_of(s);
    match expand_pattern_vec(&v) {
        Ok(vs) => Ok(strings_of(&vs)),
        Err(er) => Err(er),
    }
}

/// The desired connections one configuration line denotes, on character
/// vectors.
#[verifier::loop_isolation(false)]
fn parse_line_vec(v: &Vec<char>) -> (r: Result<Vec<Conn>, ParseError>)
    ensures
        match r {
            Ok(cs) => line_expansion(v@) == Ok::<Seq<(Seq<char>, Seq<char>)>, ParseError>(
                conns_view(cs@),
            ),
            Err(er) => line_expansion(v@) == Err::<Seq<(Seq<char>, Seq<char>)>, ParseError>(er),
        },
{
    match split_at_char(v, '>') {
        None => Err(ParseError::MalformedConnection),
        Some((o, i)) => {
            proof {
                lemma_first_idx(v@, '>');
            }
            let ot = trim(&o);
            let it = trim(&i);
            match expand_pattern_vec(&ot) {
                Err(e) => Err(e),
                Ok(os) => match expand_pattern_vec(&it) {
                    Err(e) => Err(e),
                    Ok(ins) => {
                        if os.len() == ins.len() {
                            let mut cs: Vec<Conn> = Vec::new();
                            let mut k: usize = 0;
                            while k < os.len()
                                invariant
                                    k <= os@.len(),
                                    os@.len() == ins@.len(),
                                    cs@.len() == k,
                                    forall|j: int|
                                        0 <= j < k ==> #[trigger] conns_view(cs@)[j] == (
                                        seq_views(os@)[j],
                                        seq_views(ins@)[j],
                                        ),
                                decreases os@.len() - k,
                            {
                                let ghost prev = cs@;
                                let c = Conn {
                                    out: string_of(&os[k]),
                                    inp: string_of(&ins[k]),
                                };
                                cs.push(c);
                                proof {
                                    assert forall|j: int| 0 <= j < k + 1 implies #[trigger] conns_view(
                                        cs@,
                                    )[j] == (seq_views(os@)[j], seq_views(ins@)[j]) by {
                                        if j < k {
                                            assert(conns_view(cs@)[j] == conns_view(prev)[j]);
                                        } else {
                                            assert(cs@[j] == c);
                                        }
                                    }
                                }
                                k += 1;
                            }
                            assert(conns_view(cs@) =~= seq_views(os@).zip_with(seq_views(ins@)));
                            Ok(cs)
                        } else {
                            Err(ParseError::UnbalancedConnection)
                        }
                    },
                },
            }
        },
    }
}

/// The desired connections one configuration line denotes.
pub fn parse_line(s: &str) -> (r: Result<Vec<Conn>, ParseError>)
    ensures
        match r {
            Ok(cs) => line_expansion(s@) == Ok::<Seq<(Seq<char>, Seq<char>)>, ParseError>(
                conns_view(cs@),
            ),
            Err(er) => line_expansion(s@) == Err::<Seq<(Seq<char>, Seq<char>)>, ParseError>(er),
        },
{
    let v = chars_of(s);
    parse_line_vec(&v)
}

/// `s` without one trailing carriage return, as line splitting leaves it.
pub open spec fn strip_cr(s: Seq<char>) -> Seq<char> {
    if s.len() > 0 && s.last() == '\r' {
        s.drop_last()
    } else {
        s
    }
}

/// The lines of a configuration text: pieces between newlines, a final line
/// ending optional, and a carriage return before a newline not part of the
/// line.
pub open spec fn spec_lines(text: Seq<char>) -> Seq<Seq<char>> {
    if text.len() == 0 {
        Seq::empty()
    } else {
        let raw = split_all(text, '\n');
        if raw.last().len() == 0 {
            raw.drop_last().map_values(|p: Seq<char>| strip_cr(p))
        } else {
            Seq::new(raw.len(), |i: int| if i < raw.len() - 1 { strip_cr(raw[i]) } else { raw[i] })
        }
    }
}

/// A copy of `v` without one trailing carriage return.
fn strip_cr_vec(v: &Vec<char>) -> (r: Vec<char>)
    ensures
        r@ == strip_cr(v@),
{
    if v.len() > 0 && v[v.len() - 1] == '\r' {
        let r = subvec(v, 0, v.len() - 1);
        assert(r@ =~= v@.drop_last());
        r
    } else {
        subvec(v, 0, v.len())
    }
}

/// The lines of a configuration text, executably.
#[verifier::loop_isolation(false)]
pub fn lines_of(text: &str) -> (r: Vec<Vec<char>>)
    ensures
        seq_views(r@) == spec_lines(text@),
{
    let v = chars_of(text);
    if v.len() == 0 {
        let r: Vec<Vec<char>> = Vec::new();
        assert(seq_views(r@) =~= spec_lines(text@));
        return r;
    }
    let ghost tv = v@;
    let raw = split_all_char(v, '\n');
    let ghost rawv = split_all(tv, '\n');
    proof {
        assert(split_all(tv, '\n').len() >= 1) by {
            if has_char(tv, '\n') {
                lemma_first_idx(tv, '\n');
            }
        }
        assert(raw@.len() == seq_views(raw@).len());
    }
    assert(raw.len() >= 1);
    let last_empty = raw[raw.len() - 1].len() == 0;
    let bound = if last_empty {
        raw.len() - 1
    } else {
        raw.len()
    };
    let mut out: Vec<Vec<char>> = Vec::new();
    let mut i: usize = 0;
    while i < bound
        invariant
            i <= bound,
            out@.len() == i,
            forall|k: int|
                0 <= k < i ==> seq_views(out@)[k] == (if k < bound - 1 || last_empty {
                    strip_cr(rawv[k])
                } else {
                    rawv[k]
                }),
        decreases bound - i,
    {
        let ghost prev = out@;
        if i + 1 < raw.len() || last_empty {
            out.push(strip_cr_vec(&raw[i]));
        } else {
            out.push(subvec(&raw[i], 0, raw[i].len()));
            assert(out@[i as int]@ =~= rawv[i as int]);
        }
        proof {
            assert forall|k: int| 0 <= k < i + 1 implies seq_views(out@)[k] == (if k < bound - 1
                || last_empty {
                strip_cr(rawv[k])
            } else {
                rawv[k]
            }) by {
                if k < i {
                    assert(seq_views(out@)[k] == seq_views(prev)[k]);
                }
            }
        }
        i += 1;
    }
    assert(seq_views(out@) =~= spec_lines(text@));
    out
}

/// A configuration line that was rejected, with its text.
pub struct LineError {
    pub line: String,
    pub error: ParseError,
}

impl View for LineError {
    type V = (Seq<char>, ParseError);

    open spec fn view(&self) -> (Seq<char>, ParseError) {
        (self.line@, self.error)
    }
}

/// The rejected lines a sequence of line errors records.
pub open spec fn errs_view(es: Seq<LineError>) -> Seq<(Seq<char>, ParseError)> {
    es.map_values(|e: LineError| e@)
}

/// The connections a configuration denotes: each line's pairs in order,
/// rejected lines contributing none.
pub open spec fn config_conns(lines: Seq<Seq<char>>) -> Seq<(Seq<char>, Seq<char>)>
    decreases lines.len(),
{
    if lines.len() == 0 {
        Seq::empty()
    } else {
        (match line_expansion(lines[0]) {
            Ok(ps) => ps,
            Err(_) => Seq::empty(),
        }) + config_conns(lines.skip(1))
    }
}

/// The rejected lines of a configuration, in order, each with its error.
pub open spec fn config_errors(lines: Seq<Seq<char>>) -> Seq<(Seq<char>, ParseError)>
    decreases lines.len(),
{
    if lines.len() == 0 {
        Seq::empty()
    } else {
        (match line_expansion(lines[0]) {
            Ok(_) => Seq::empty(),
            Err(e) => seq![(lines[0], e)],
        }) + config_errors(lines.skip(1))
    }
}

/// Expands a whole configuration: every line is parsed, the pairs of the
/// accepted lines are concatenated in order, and each rejected line is
/// reported with its error; a bad line never stops the rest.
#[verifier::loop_isolation(false)]
pub fn parse_config(text: &str) -> (r: (Vec<Conn>, Vec<LineError>))
    ensures
        conns_view(r.0@) == config_conns(spec_lines(text@)),
        errs_view(r.1@) == config_errors(spec_lines(text@)),
{
    let lines = lines_of(text);
    let ghost lv = seq_views(lines@);
    let mut conns: Vec<Conn> = Vec::new();
    let mut errs: Vec<LineError> = Vec::new();
    proof {
        assert(lv.skip(0) =~= lv);
        assert(conns_view(conns@) + config_conns(lv) =~= config_conns(lv));
        assert(errs_view(errs@) + config_errors(lv) =~= config_errors(lv));
    }
    let mut i: usize = 0;
    while i < lines.len()
        invariant
            i <= lines@.len(),
            conns_view(conns@) + config_conns(lv.skip(i as int)) == config_conns(lv),
            errs_view(errs@) + config_errors(lv.skip(i as int)) == config_errors(lv),
        decreases lines@.len() - i,
    {
        proof {
            assert(lv.skip(i as int)[0] == lines@[i as int]@);
            assert(lv.skip(i as int).skip(1) =~= lv.skip(i + 1));
        }
        match parse_line_vec(&lines[i]) {
            Ok(mut cs) => {
                let ghost pconns = conns_view(conns@);
                let ghost pcs = conns_view(cs@);
                let ghost prev = conns@;
                let ghost csv = cs@;
                conns.append(&mut cs);
                proof {
                    assert forall|k: int| 0 <= k < conns@.len() implies conns_view(conns@)[k] == (
                    pconns + pcs)[k] by {
                        if k < prev.len() {
                            assert(conns@[k] == prev[k]);
                        } else {
                            assert(conns@[k] == csv[k - prev.len()]);
                        }
                    }
                    assert(conns_view(conns@) =~= pconns + pcs);
                    assert((pconns + pcs) + config_conns(lv.skip(i + 1)) =~= pconns + (pcs
                        + config_conns(lv.skip(i + 1))));
                }
            },
            Err(e) => {
                let ghost perrs = errs_view(errs@);
                let ghost prev = errs@;
                let le = LineError { line: string_of(&lines[i]), error: e };
                errs.push(le);
                proof {
                    assert forall|k: int| 0 <= k < errs@.len() implies errs_view(errs@)[k] == (
                    perrs + seq![(lv.skip(i as int)[0], e)])[k] by {
                        if k < prev.len() {
                            assert(errs@[k] == prev[k]);
                        } else {
                            assert(errs@[k] == le);
                        }
                    }
                    assert(errs_view(errs@) =~= perrs + seq![(lv.skip(i as int)[0], e)]);
                    assert((perrs + seq![(lv.skip(i as int)[0], e)]) + config_errors(lv.skip(i + 1))
                        =~= perrs + (seq![(lv.skip(i as int)[0], e)] + config_errors(
                        lv.skip(i + 1),
                    )));
                }
            },
        }
        i += 1;
    }
    proof {
        assert(lv.skip(lv.len() as int) =~= Seq::<Seq<char>>::empty());
        assert(conns_view(conns@) + Seq::<(Seq<char>, Seq<char>)>::empty() =~= conns_view(conns@));
        assert(errs_view(errs@) + Seq::<(Seq<char>, ParseError)>::empty() =~= errs_view(errs@));
    }
    (conns, errs)
}

/// Law: a numeric range with bounds `a <= b` expands to exactly `b - a + 1`
/// names, in ascending numeric order, each the canonical decimal numeral of
/// its value: all digits, no leading zero. A range element `l-r` with digit
/// bounds expands, by `elt_values`, to exactly `num_range(dec_val(l),
/// dec_val(r))`, which this law describes.
pub proof fn lemma_numeric_range_law(a: nat, b: nat)
    requires
        a <= b,
    ensures
        num_range(a as int, b as int).len() == b - a + 1,
        forall|k: int|
            0 <= k <= b - a ==> dec_val(#[trigger] num_range(a as int, b as int)[k]) == a + k,
        forall|k: int| 0 <= k <= b - a ==> all_digits(#[trigger] num_range(a as int, b as int)[k]),
        forall|k: int|
            0 <= k <= b - a ==> a + k >= 1 ==> (#[trigger] num_range(a as int, b as int)[k])[0]
                != '0',
{
    assert forall|k: int| 0 <= k <= b - a implies dec_val(
        #[trigger] num_range(a as int, b as int)[k],
    ) == a + k && all_digits(num_range(a as int, b as int)[k]) && (a + k >= 1 ==> num_range(
        a as int,
        b as int,
    )[k][0] != '0') by {
        lemma_dec_str_val((a + k) as nat);
        lemma_dec_str_digits((a + k) as nat);
        lemma_dec_str_canonical((a + k) as nat);
    }
}

/// Law: an alphabetic range with single-letter bounds `a <= b` expands to
/// the inclusive ascending letter sequence: one single-character name per
/// code point from `a` to `b`.
pub proof fn lemma_alpha_range_law(a: char, b: char)
    requires
        spec_is_alpha(a),
        spec_is_alpha(b),
        a <= b,
    ensures
        alpha_range(a as int, b as int).len() == b as int - a as int + 1,
        forall|k: int|
            0 <= k <= b as int - a as int ==> (#[trigger] alpha_range(a as int, b as int)[k]).len()
                == 1,
        forall|k: int|
            0 <= k <= b as int - a as int ==> (#[trigger] alpha_range(a as int, b as int)[k])[0]
                as int == a as int + k,
{
    assert forall|k: int| 0 <= k <= b as int - a as int implies (#[trigger] alpha_range(
        a as int,
        b as int,
    )[k]).len() == 1 && (alpha_range(a as int, b as int)[k])[0] as int == a as int + k by {
        assert(alpha_range(a as int, b as int)[k] == seq![((a as int + k) as char)]);
        assert(((a as int + k) as char) as int == a as int + k);
    }
}

/// Law: a range element `l-r` whose bounds are both nonempty digit strings
/// within machine range expands to exactly the numeral sequence of the
/// inclusive range of their values, which `lemma_numeric_range_law`
/// describes.
pub proof fn lemma_numeric_elt_law(e: Seq<char>)
    requires
        has_char(e, '-'),
        ({
            let l = e.take(first_idx(e, '-'));
            l.len() > 0 && all_digits(l) && dec_val(l) <= u64::MAX as int
        }),
        ({
            let r = e.skip(first_idx(e, '-') + 1);
            r.len() > 0 && all_digits(r) && dec_val(r) <= u64::MAX as int
        }),
    ensures
        elt_values(e) == Ok::<Seq<Seq<char>>, ParseError>(
            num_range(dec_val(e.take(first_idx(e, '-'))), dec_val(e.skip(first_idx(e, '-') + 1))),
        ),
{
}

/// Law: a range element `l-r` whose bounds are both single ASCII letters
/// expands to exactly the single-letter sequence of the inclusive code-point
/// range, which `lemma_alpha_range_law` describes.
pub proof fn lemma_alpha_elt_law(e: Seq<char>)
    requires
        has_char(e, '-'),
        ({
            let l = e.take(first_idx(e, '-'));
            l.len() == 1 && spec_is_alpha(l[0])
        }),
        ({
            let r = e.skip(first_idx(e, '-') + 1);
            r.len() == 1 && spec_is_alpha(r[0])
        }),
    ensures
        elt_values(e) == Ok::<Seq<Seq<char>>, ParseError>(
            alpha_range(
                e.take(first_idx(e, '-'))[0] as int,
                e.skip(first_idx(e, '-') + 1)[0] as int,
            ),
        ),
{
    let l = e.take(first_idx(e, '-'));
    assert(!all_digits(l)) by {
        assert(!crate::text::spec_is_digit(l[0]));
    }
}

/// Law: a pattern with no bracket group and no comma expands to exactly one
/// name, the literal pattern itself.
pub proof fn lemma_literal_pattern_law(s: Seq<char>)
    requires
        !has_char(s, '['),
        !has_char(s, ','),
    ensures
        pattern_expansion(s) == Ok::<Seq<Seq<char>>, ParseError>(seq![s]),
{
}

/// Law: a line whose two sides both expand, but to different numbers of
/// names, denotes no connection and exactly the unbalanced-connection error.
pub proof fn lemma_unbalanced_line_law(s: Seq<char>, os: Seq<Seq<char>>, ins: Seq<Seq<char>>)
    requires
        has_char(s, '>'),
        pattern_expansion(spec_trim(s.take(first_idx(s, '>')))) == Ok::<Seq<Seq<char>>, ParseError>(
            os,
        ),
        pattern_expansion(spec_trim(s.skip(first_idx(s, '>') + 1))) == Ok::<
            Seq<Seq<char>>,
            ParseError,
        >(ins),
        os.len() != ins.len(),
    ensures
        line_expansion(s) == Err::<Seq<(Seq<char>, Seq<char>)>, ParseError>(
            ParseError::UnbalancedConnection,
        ),
{
}

/// Law: a configuration's connections and errors are the concatenation of
/// its parts' connections and errors — no line affects another.
pub proof fn lemma_config_append_law(a: Seq<Seq<char>>, b: Seq<Seq<char>>)
    ensures
        config_conns(a + b) == config_conns(a) + config_conns(b),
        config_errors(a + b) == config_errors(a) + config_errors(b),
    decreases a.len(),
{
    if a.len() == 0 {
        assert(a + b =~= b);
        assert(config_conns(a) + config_conns(b) =~= config_conns(b));
        assert(config_errors(a) + config_errors(b) =~= config_errors(b));
    } else {
        assert((a + b)[0] == a[0]);
        assert((a + b).skip(1) =~= a.skip(1) + b);
        lemma_config_append_law(a.skip(1), b);
        match line_expansion(a[0]) {
            Ok(ps) => {
                assert(config_conns(a + b) =~= config_conns(a) + config_conns(b));
                assert(config_errors(a + b) =~= config_errors(a) + config_errors(b));
            },
            Err(e) => {
                assert(config_conns(a + b) =~= config_conns(a) + config_conns(b));
                assert(config_errors(a + b) =~= config_errors(a) + config_errors(b));
            },
        }
    }
}

/// Law: a rejected line contributes no connection and exactly one reported
/// error, its own.
pub proof fn lemma_bad_line_isolated_law(l: Seq<char>, e: ParseError)
    requires
        line_expansion(l) == Err::<Seq<(Seq<char>, Seq<char>)>, ParseError>(e),
    ensures
        config_conns(seq![l]) == Seq::<(Seq<char>, Seq<char>)>::empty(),
        config_errors(seq![l]) == seq![(l, e)],
{
    assert(seq![l].skip(1) =~= Seq::<Seq<char>>::empty());
    assert(config_conns(Seq::<Seq<char>>::empty()) == Seq::<(Seq<char>, Seq<char>)>::empty());
    assert(config_errors(Seq::<Seq<char>>::empty()) == Seq::<(Seq<char>, ParseError)>::empty());
    assert(seq![l][0] == l);
    assert(config_conns(seq![l]) =~= Seq::<(Seq<char>, Seq<char>)>::empty());
    assert(config_errors(seq![l]) =~= seq![(l, e)]);
}

} // verus!
