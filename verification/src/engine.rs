//! The directive-driven toggling engine: comment-style resolution,
//! directive recognition, the option-expression evaluator, the
//! section/option line rewriting rules, and the whole-file pass.

use vstd::prelude::*;

use crate::bytes::bytes_eq;
use crate::bytes::spec_match_at;
use crate::bytes::spec_starts_with;
use crate::split::slice_split;
use crate::split::spec_split_fixed;
use crate::split::lemma_split_with_fixed;

verus! {

/// Tri-state activation of an option region: lines are uncommented on
/// `Yes`, commented on `No`, and left untouched on `Ignore`.
#[derive(Debug, PartialEq, Eq, Structural, Clone, Copy)]
pub enum OptionEnabled {
    Yes,
    No,
    Ignore,
}

/// A comment marker: the byte sequence opening a comment, and an
/// optional closing sequence for block-style comments.
#[derive(Debug, Clone)]
pub struct Comment {
    open: Vec<u8>,
    close: Option<Vec<u8>>,
}

impl Comment {
    /// The opening marker.
    pub closed spec fn open_spec(&self) -> Seq<u8> {
        self.open@
    }

    /// The closing marker, if one is configured.
    pub closed spec fn close_spec(&self) -> Option<Seq<u8>> {
        match self.close {
            Some(ref c) => Some(c@),
            None => None,
        }
    }

    /// A comment marker from an optional opening and closing pair:
    /// without an opening marker there is no comment marker at all.
    pub fn maybe_whole(open: Option<Vec<u8>>, close: Option<Vec<u8>>) -> (r: Option<Self>)
        ensures
            match r {
                Some(c) => open is Some && c.open_spec() == open->Some_0@ && c.close_spec()
                    == (match close {
                    Some(cl) => Some(cl@),
                    None => None,
                }),
                None => open is None,
            },
    {
        match open {
            Some(o) => Some(Comment { open: o, close }),
            None => None,
        }
    }

    /// The opening marker bytes.
    pub fn open(&self) -> (r: &[u8])
        ensures
            r@ == self.open_spec(),
    {
        self.open.as_slice()
    }

    /// The closing marker bytes, if configured.
    pub fn close(&self) -> (r: Option<&[u8]>)
        ensures
            match r {
                Some(c) => self.close_spec() == Some(c@),
                None => self.close_spec() is None,
            },
    {
        match &self.close {
            Some(c) => Some(c.as_slice()),
            None => None,
        }
    }
}

/// The view of an optional borrowed byte slice.
pub open spec fn spec_opt_bytes(o: Option<&[u8]>) -> Option<Seq<u8>> {
    match o {
        Some(c) => Some(c@),
        None => None,
    }
}

/// Membership of an identifier in a caller-supplied set, by byte
/// equality.
pub open spec fn spec_set_contains(set: Seq<Seq<u8>>, x: Seq<u8>) -> bool {
    exists|i: int| 0 <= i < set.len() && set[i] == x
}

/// Whether `x` occurs in `set`.
pub fn set_contains(set: &Vec<Vec<u8>>, x: &[u8]) -> (r: bool)
    ensures
        r == spec_set_contains(set.deep_view(), x@),
{
    let mut i: usize = 0;
    while i < set.len()
        invariant
            0 <= i <= set@.len(),
            forall|j: int| 0 <= j < i ==> set.deep_view()[j] != x@,
        decreases set@.len() - i,
    {
        if bytes_eq(set[i].as_slice(), x) {
            assert(set.deep_view()[i as int] == x@);
            return true;
        }
        assert(set.deep_view()[i as int] == set@[i as int]@);
        i += 1;
    }
    false
}

/// The tri-state status of one identifier against the enabled and
/// disabled sets: with `keep` an identifier in neither set has no
/// status; without `keep` it counts as disabled.
pub open spec fn spec_status(
    ident: Seq<u8>,
    enabled: Seq<Seq<u8>>,
    disabled: Seq<Seq<u8>>,
    keep: bool,
) -> Option<bool> {
    if keep {
        if spec_set_contains(disabled, ident) {
            Some(false)
        } else if spec_set_contains(enabled, ident) {
            Some(true)
        } else {
            None
        }
    } else {
        Some(spec_set_contains(enabled, ident))
    }
}

/// Looks an identifier up in the enabled and disabled sets.
pub fn get_status(
    ident: &[u8],
    enabled: &Vec<Vec<u8>>,
    disabled: &Vec<Vec<u8>>,
    keep: bool,
) -> (r: Option<bool>)
    ensures
        r == spec_status(ident@, enabled.deep_view(), disabled.deep_view(), keep),
{
    if keep {
        if set_contains(disabled, ident) {
            Some(false)
        } else if set_contains(enabled, ident) {
            Some(true)
        } else {
            None
        }
    } else {
        Some(set_contains(enabled, ident))
    }
}

/// The separator between the conjuncts of an option expression.
pub open spec fn spec_and_sep() -> Seq<u8> {
    seq![32u8, 38u8, 38u8, 32u8]
}

/// Folds the conjuncts of an option expression left to right.
/// An unknown conjunct contributes nothing; the first known conjunct
/// raises the accumulator from `Ignore` to `Yes`; an unsatisfied
/// conjunct makes the whole expression `No`, and evaluation stops.
pub open spec fn spec_eval_parts(
    parts: Seq<Seq<u8>>,
    acc: OptionEnabled,
    enabled: Seq<Seq<u8>>,
    disabled: Seq<Seq<u8>>,
    keep: bool,
) -> OptionEnabled
    decreases parts.len(),
{
    if acc is No {
        OptionEnabled::No
    } else if parts.len() == 0 {
        acc
    } else {
        let part = parts[0];
        let negate = part.len() >= 1 && part[0] == 33;
        let ident = if negate {
            part.skip(1)
        } else {
            part
        };
        let rest = parts.skip(1);
        match spec_status(ident, enabled, disabled, keep) {
            None => spec_eval_parts(rest, acc, enabled, disabled, keep),
            Some(c) => if (negate && c) || (!negate && !c) {
                OptionEnabled::No
            } else {
                spec_eval_parts(rest, OptionEnabled::Yes, enabled, disabled, keep)
            },
        }
    }
}

/// The tri-state value of a whole option expression: its conjuncts,
/// separated by `" && "` and each optionally negated by a leading
/// `!`, folded by [`spec_eval_parts`] starting from `Ignore`.
pub open spec fn spec_eval_expr(
    expr: Seq<u8>,
    enabled: Seq<Seq<u8>>,
    disabled: Seq<Seq<u8>>,
    keep: bool,
) -> OptionEnabled {
    spec_eval_parts(
        spec_split_fixed(expr, spec_and_sep()),
        OptionEnabled::Ignore,
        enabled,
        disabled,
        keep,
    )
}

/// Evaluates an option expression against the enabled and disabled
/// sets.
pub fn eval_option_expr(
    expr: &[u8],
    enabled: &Vec<Vec<u8>>,
    disabled: &Vec<Vec<u8>>,
    keep: bool,
) -> (r: OptionEnabled)
    ensures
        r == spec_eval_expr(expr@, enabled.deep_view(), disabled.deep_view(), keep),
{
    let sep_arr: [u8; 4] = [32, 38, 38, 32];
    let sep: &[u8] = sep_arr.as_slice();
    let ghost en = enabled.deep_view();
    let ghost dis = disabled.deep_view();
    let ghost parts = spec_split_fixed(expr@, spec_and_sep());
    proof {
        assert(sep@ =~= spec_and_sep());
        lemma_split_with_fixed(sep, expr@);
    }
    let mut it = slice_split(expr, sep);
    let mut acc = OptionEnabled::Ignore;
    loop
        invariant
            it.wf(),
            !(acc is No),
            en == enabled.deep_view(),
            dis == disabled.deep_view(),
            parts == spec_split_fixed(expr@, spec_and_sep()),
            spec_eval_parts(parts, OptionEnabled::Ignore, en, dis, keep) == spec_eval_parts(
                it.remaining(),
                acc,
                en,
                dis,
                keep,
            ),
        decreases it.remaining().len(),
    {
        let ghost rem = it.remaining();
        match it.next() {
            None => {
                return acc;
            },
            Some(part) => {
                let (negate, ident): (bool, &[u8]) = if part.len() >= 1 && part[0] == 33 {
                    (true, &part[1..part.len()])
                } else {
                    (false, part)
                };
                proof {
                    if negate {
                        assert(ident@ =~= part@.skip(1));
                    }
                    assert(rem.skip(1) == it.remaining());
                }
                let st = get_status(ident, enabled, disabled, keep);
                proof {
                    assert(rem.len() > 0);
                    assert(rem[0] == part@);
                    assert(negate == (rem[0].len() >= 1 && rem[0][0] == 33));
                    assert(ident@ == (if negate {
                        rem[0].skip(1)
                    } else {
                        rem[0]
                    }));
                    assert(spec_eval_parts(rem, acc, en, dis, keep) == (match spec_status(
                        ident@,
                        en,
                        dis,
                        keep,
                    ) {
                        None => spec_eval_parts(rem.skip(1), acc, en, dis, keep),
                        Some(c) => if (negate && c) || (!negate && !c) {
                            OptionEnabled::No
                        } else {
                            spec_eval_parts(rem.skip(1), OptionEnabled::Yes, en, dis, keep)
                        },
                    }));
                }
                match st {
                    None => {},
                    Some(c) => {
                        if (negate && c) || (!negate && !c) {
                            return OptionEnabled::No;
                        } else {
                            acc = OptionEnabled::Yes;
                        }
                    },
                }
            },
        }
    }
}


/// The bytes of `" CORPL "`: the tag, with its mandatory surrounding
/// spaces, that follows the comment marker on a directive line.
pub open spec fn spec_corpl_tag() -> Seq<u8> {
    seq![32u8, 67u8, 79u8, 82u8, 80u8, 76u8, 32u8]
}

/// The bytes of `"end"`.
pub open spec fn spec_end_kw() -> Seq<u8> {
    seq![101u8, 110u8, 100u8]
}

/// The bytes of `"end "`.
pub open spec fn spec_end_sp_kw() -> Seq<u8> {
    seq![101u8, 110u8, 100u8, 32u8]
}

/// The bytes of `"section "`.
pub open spec fn spec_section_kw() -> Seq<u8> {
    seq![115u8, 101u8, 99u8, 116u8, 105u8, 111u8, 110u8, 32u8]
}

/// The bytes of `"option "`.
pub open spec fn spec_option_kw() -> Seq<u8> {
    seq![111u8, 112u8, 116u8, 105u8, 111u8, 110u8, 32u8]
}

/// A trimmed line carries a directive exactly when it begins with the
/// comment marker immediately followed by `" CORPL "`.
pub open spec fn spec_is_directive_line(t: Seq<u8>, comment: Seq<u8>) -> bool {
    spec_starts_with(t, comment) && spec_match_at(t, spec_corpl_tag(), comment.len() as int)
}

/// A parsed directive: `end` leaves the current region, `section` and
/// `option` open one. Text after the tag that matches no verb leaves
/// the line as ordinary data.
pub enum SpecDirective {
    End,
    SectionText(Seq<u8>),
    OptionExpr(Seq<u8>),
    Unknown,
}

/// Whether the directive text is an `end` directive: bare `end`
/// without a closing marker, `end ` followed by an exact echo of the
/// closing marker with one.
pub open spec fn spec_is_end(rest: Seq<u8>, close: Option<Seq<u8>>) -> bool {
    match close {
        None => rest == spec_end_kw(),
        Some(c) => spec_starts_with(rest, spec_end_sp_kw()) && rest.skip(4) == c,
    }
}

/// The expression of an `option` directive: the text after `option `,
/// excluding a trailing space and closing-marker echo when a closing
/// marker is configured and the text is long enough to hold one.
pub open spec fn spec_option_expr_of(rest: Seq<u8>, close: Option<Seq<u8>>) -> Seq<u8> {
    let body = rest.skip(7);
    match close {
        None => body,
        Some(c) => if body.len() >= c.len() + 1 {
            rest.subrange(7, rest.len() - c.len() - 1)
        } else {
            body
        },
    }
}

/// The directive carried by the trimmed line `t`, assuming
/// [`spec_is_directive_line`] holds. Verbs are tried in order: `end`,
/// then `section `, then `option `.
pub open spec fn spec_directive(t: Seq<u8>, comment: Seq<u8>, close: Option<Seq<u8>>)
    -> SpecDirective
    recommends
        spec_is_directive_line(t, comment),
{
    let rest = t.skip(comment.len() + 7 as int);
    if spec_is_end(rest, close) {
        SpecDirective::End
    } else if spec_starts_with(rest, spec_section_kw()) {
        SpecDirective::SectionText(rest.skip(8))
    } else if spec_starts_with(rest, spec_option_kw()) {
        SpecDirective::OptionExpr(spec_option_expr_of(rest, close))
    } else {
        SpecDirective::Unknown
    }
}

/// A parsed directive with owned payloads.
pub enum Directive {
    End,
    SectionText(Vec<u8>),
    OptionExpr(Vec<u8>),
    Unknown,
}

impl Directive {
    /// The directive this value stands for.
    pub open spec fn view_spec(&self) -> SpecDirective {
        match self {
            Directive::End => SpecDirective::End,
            Directive::SectionText(s) => SpecDirective::SectionText(s@),
            Directive::OptionExpr(e) => SpecDirective::OptionExpr(e@),
            Directive::Unknown => SpecDirective::Unknown,
        }
    }
}

/// Recognises a directive on the trimmed line `trimmed`: `None` when
/// the line is not a directive line at all.
pub fn parse_directive(trimmed: &[u8], comment: &[u8], close: Option<&[u8]>) -> (r: Option<
    Directive,
>)
    ensures
        match r {
            Some(d) => spec_is_directive_line(trimmed@, comment@) && d.view_spec()
                == spec_directive(trimmed@, comment@, spec_opt_bytes(close)),
            None => !spec_is_directive_line(trimmed@, comment@),
        },
{
    let tag_arr: [u8; 7] = [32, 67, 79, 82, 80, 76, 32];
    let tag: &[u8] = tag_arr.as_slice();
    proof {
        assert(tag@ =~= spec_corpl_tag());
    }
    if !crate::bytes::starts_with(trimmed, comment) {
        return None;
    }
    if !crate::bytes::match_at(trimmed, tag, comment.len()) {
        return None;
    }
    let tl = trimmed.len();
    assert(comment@.len() + 7 <= trimmed@.len());
    let start = comment.len() + 7;
    let rest = &trimmed[start..trimmed.len()];
    proof {
        assert(rest@ =~= trimmed@.skip(comment.len() + 7));
    }
    let end_arr: [u8; 3] = [101, 110, 100];
    let end_sp_arr: [u8; 4] = [101, 110, 100, 32];
    let section_arr: [u8; 8] = [115, 101, 99, 116, 105, 111, 110, 32];
    let option_arr: [u8; 7] = [111, 112, 116, 105, 111, 110, 32];
    proof {
        assert(end_arr@ =~= spec_end_kw());
        assert(end_sp_arr@ =~= spec_end_sp_kw());
        assert(section_arr@ =~= spec_section_kw());
        assert(option_arr@ =~= spec_option_kw());
    }
    let is_end = match close {
        None => bytes_eq(rest, end_arr.as_slice()),
        Some(c) => {
            let r = crate::bytes::starts_with(rest, end_sp_arr.as_slice()) && bytes_eq(
                &rest[4..rest.len()],
                c,
            );
            proof {
                if rest@.len() >= 4 {
                    assert(rest@.subrange(4, rest@.len() as int) =~= rest@.skip(4));
                }
            }
            r
        },
    };
    if is_end {
        return Some(Directive::End);
    }
    if crate::bytes::starts_with(rest, section_arr.as_slice()) {
        let sec = vstd::slice::slice_to_vec(&rest[8..rest.len()]);
        proof {
            assert(sec@ =~= rest@.skip(8));
        }
        return Some(Directive::SectionText(sec));
    }
    if crate::bytes::starts_with(rest, option_arr.as_slice()) {
        let expr: Vec<u8> = match close {
            None => {
                let e = vstd::slice::slice_to_vec(&rest[7..rest.len()]);
                proof {
                    assert(e@ =~= rest@.skip(7));
                }
                e
            },
            Some(c) => {
                if rest.len() - 7 > c.len() {
                    let e = vstd::slice::slice_to_vec(&rest[7..rest.len() - c.len() - 1]);
                    proof {
                        assert(e@ =~= rest@.subrange(7, rest@.len() - c@.len() - 1));
                    }
                    e
                } else {
                    let e = vstd::slice::slice_to_vec(&rest[7..rest.len()]);
                    proof {
                        assert(e@ =~= rest@.skip(7));
                    }
                    e
                }
            },
        };
        return Some(Directive::OptionExpr(expr));
    }
    Some(Directive::Unknown)
}


/// Non-fatal diagnostics the engine reports while processing.
#[derive(Debug, PartialEq, Eq, Structural, Clone, Copy)]
pub enum Warning {
    /// The comment marker was taken from the file's first line and is
    /// none of the conventional ones.
    UncommonComment,
    /// A `section` directive with empty replacement text.
    EmptySectionText,
    /// A `section` directive while a closing marker is configured;
    /// the combination is not supported and the region is not entered.
    SectionWithClosingComment,
    /// A section line had to be deactivated but does not begin with
    /// the section's replacement text; it was left unchanged.
    SectionTextNotFound,
}

/// The current annotation scope.
pub enum Segment {
    /// Outside any directive region; lines pass through unmodified.
    Outside,
    /// Inside a `section` region with the given replacement text.
    InSection(Vec<u8>),
    /// Inside an `option` region with the given activation.
    InOption(OptionEnabled),
}

/// The annotation scope as the specification sees it.
pub enum SpecSegment {
    Outside,
    InSection(Seq<u8>),
    InOption(OptionEnabled),
}

impl Segment {
    /// The scope this value stands for.
    pub open spec fn view_spec(&self) -> SpecSegment {
        match self {
            Segment::Outside => SpecSegment::Outside,
            Segment::InSection(s) => SpecSegment::InSection(s@),
            Segment::InOption(e) => SpecSegment::InOption(*e),
        }
    }
}

/// A line is currently inactive when, after its leading whitespace, it
/// begins with the comment marker followed by a space.
pub open spec fn spec_line_inactive(line: Seq<u8>, comment: Seq<u8>) -> bool {
    crate::bytes::marker_space_at(line, comment, crate::bytes::spec_first_non_whitespace(line))
}

/// Whether `line` is currently inactive under `comment`.
pub fn is_line_inactive(line: &[u8], comment: &[u8]) -> (r: bool)
    ensures
        r == spec_line_inactive(line@, comment@),
{
    let llen = line.len();
    let start = crate::bytes::first_non_whitespace(line);
    crate::bytes::match_at(line, comment, start) && llen - start > comment.len()
        && line[start + comment.len()] == 32
}

/// The rewrite of a non-directive, non-blank line inside an option
/// region: `Yes` uncomments an inactive line, `No` comments an active
/// one, everything else passes through. With a closing marker, `No`
/// also appends a space and the marker, and `Yes` removes the trailing
/// space and marker found before the last non-whitespace position,
/// leaving the line unchanged when the positions do not fit.
pub open spec fn spec_option_rewrite(
    line: Seq<u8>,
    act: OptionEnabled,
    comment: Seq<u8>,
    close: Option<Seq<u8>>,
) -> Seq<u8> {
    let start = crate::bytes::spec_first_non_whitespace(line);
    let inactive = spec_line_inactive(line, comment);
    match act {
        OptionEnabled::Ignore => line,
        OptionEnabled::Yes => if !inactive {
            line
        } else {
            match close {
                None => line.take(start) + line.skip(start + comment.len() + 1),
                Some(c) => {
                    let end = crate::bytes::spec_last_non_whitespace(line);
                    let cut = end - c.len() - 1;
                    if start + comment.len() + 1 <= cut {
                        line.take(start) + line.subrange(start + comment.len() + 1, cut)
                            + line.skip(end)
                    } else {
                        line
                    }
                },
            }
        },
        OptionEnabled::No => if inactive {
            line
        } else {
            line.take(start) + comment + seq![32u8] + line.skip(start) + (match close {
                Some(c) => seq![32u8] + c,
                None => Seq::<u8>::empty(),
            })
        },
    }
}

/// Rewrites `line` under option activation `act`, appending the
/// result to `output`.
pub fn option_rewrite(
    line: &[u8],
    act: OptionEnabled,
    comment: &[u8],
    close: Option<&[u8]>,
    output: &mut Vec<u8>,
)
    ensures
        final(output)@ == old(output)@ + spec_option_rewrite(
            line@,
            act,
            comment@,
            spec_opt_bytes(close),
        ),
{
    let ghost expect = spec_option_rewrite(line@, act, comment@, spec_opt_bytes(close));
    let llen = line.len();
    let start = crate::bytes::first_non_whitespace(line);
    proof {
        crate::bytes::lemma_trim_bounds(line@);
    }
    let inactive = is_line_inactive(line, comment);
    match act {
        OptionEnabled::Ignore => {
            output.extend_from_slice(line);
            proof {
                assert(final(output)@ =~= old(output)@ + expect);
            }
        },
        OptionEnabled::Yes => {
            if !inactive {
                output.extend_from_slice(line);
                proof {
                    assert(final(output)@ =~= old(output)@ + expect);
                }
            } else {
                assert(start + comment@.len() < line@.len());
                match close {
                    None => {
                        output.extend_from_slice(&line[0..start]);
                        output.extend_from_slice(&line[start + comment.len() + 1..line.len()]);
                        proof {
                            assert(final(output)@ =~= old(output)@ + expect);
                        }
                    },
                    Some(c) => {
                        let end = crate::bytes::last_non_whitespace(line);
                        proof {
                            crate::bytes::lemma_last_where_end(
                                line@,
                                crate::bytes::non_ws_fn(),
                            );
                        }
                        if end > c.len() && end - c.len() - 1 >= start + comment.len() + 1 {
                            let cut = end - c.len() - 1;
                            output.extend_from_slice(&line[0..start]);
                            output.extend_from_slice(&line[start + comment.len() + 1..cut]);
                            output.extend_from_slice(&line[end..line.len()]);
                            proof {
                                assert(final(output)@ =~= old(output)@ + expect);
                            }
                        } else {
                            output.extend_from_slice(line);
                            proof {
                                assert(final(output)@ =~= old(output)@ + expect);
                            }
                        }
                    },
                }
            }
        },
        OptionEnabled::No => {
            if inactive {
                output.extend_from_slice(line);
                proof {
                    assert(final(output)@ =~= old(output)@ + expect);
                }
            } else {
                output.extend_from_slice(&line[0..start]);
                output.extend_from_slice(comment);
                output.push(32);
                output.extend_from_slice(&line[start..line.len()]);
                match close {
                    Some(c) => {
                        output.push(32);
                        output.extend_from_slice(c);
                    },
                    None => {},
                }
                proof {
                    assert(final(output)@ =~= old(output)@ + expect);
                }
            }
        },
    }
}

/// The rewrite of a non-directive, non-blank line inside a section
/// region, and the warnings it raises. The identifier deciding the
/// desired state is the text after the last occurrence of the comment
/// marker followed by a space; a line without one is always
/// deactivated; an identifier with unknown status leaves the line
/// untouched. Deactivating replaces the section's replacement text at
/// the start of the line with the comment marker and a space;
/// activating replaces the comment marker and space with the
/// replacement text.
pub open spec fn spec_section_rewrite(
    line: Seq<u8>,
    sec: Seq<u8>,
    comment: Seq<u8>,
    enabled: Seq<Seq<u8>>,
    disabled: Seq<Seq<u8>>,
    keep: bool,
) -> (Seq<u8>, Seq<Warning>) {
    let activate_opt = match crate::bytes::spec_get_last(line, comment) {
        None => Some(false),
        Some(id) => spec_status(id, enabled, disabled, keep),
    };
    match activate_opt {
        None => (line, Seq::<Warning>::empty()),
        Some(activate) => {
            let start = crate::bytes::spec_first_non_whitespace(line);
            let active = !spec_line_inactive(line, comment);
            if active == activate {
                (line, Seq::<Warning>::empty())
            } else if !activate {
                if spec_match_at(line, sec, start) {
                    (
                        line.take(start) + comment + seq![32u8] + line.skip(start + sec.len()),
                        Seq::<Warning>::empty(),
                    )
                } else {
                    (line, seq![Warning::SectionTextNotFound])
                }
            } else {
                (
                    line.take(start) + sec + line.skip(start + comment.len() + 1),
                    Seq::<Warning>::empty(),
                )
            }
        },
    }
}

/// Rewrites `line` inside a section region, appending the result to
/// `output` and any warning to `warnings`.
pub fn section_rewrite(
    line: &[u8],
    sec: &[u8],
    comment: &[u8],
    enabled: &Vec<Vec<u8>>,
    disabled: &Vec<Vec<u8>>,
    keep: bool,
    output: &mut Vec<u8>,
    warnings: &mut Vec<Warning>,
)
    ensures
        final(output)@ == old(output)@ + spec_section_rewrite(
            line@,
            sec@,
            comment@,
            enabled.deep_view(),
            disabled.deep_view(),
            keep,
        ).0,
        final(warnings)@ == old(warnings)@ + spec_section_rewrite(
            line@,
            sec@,
            comment@,
            enabled.deep_view(),
            disabled.deep_view(),
            keep,
        ).1,
{
    let ghost expect = spec_section_rewrite(
        line@,
        sec@,
        comment@,
        enabled.deep_view(),
        disabled.deep_view(),
        keep,
    );
    let llen = line.len();
    let activate_opt = match crate::bytes::get_last(line, comment) {
        None => Some(false),
        Some(id) => get_status(id, enabled, disabled, keep),
    };
    match activate_opt {
        None => {
            output.extend_from_slice(line);
            proof {
                assert(final(output)@ =~= old(output)@ + expect.0);
                assert(final(warnings)@ =~= old(warnings)@ + expect.1);
            }
        },
        Some(activate) => {
            let start = crate::bytes::first_non_whitespace(line);
            proof {
                crate::bytes::lemma_trim_bounds(line@);
            }
            let active = !is_line_inactive(line, comment);
            if active == activate {
                output.extend_from_slice(line);
                proof {
                    assert(final(output)@ =~= old(output)@ + expect.0);
                    assert(final(warnings)@ =~= old(warnings)@ + expect.1);
                }
            } else if !activate {
                if crate::bytes::match_at(line, sec, start) {
                    assert(start + sec@.len() <= line@.len());
                    output.extend_from_slice(&line[0..start]);
                    output.extend_from_slice(comment);
                    output.push(32);
                    output.extend_from_slice(&line[start + sec.len()..line.len()]);
                    proof {
                        assert(final(output)@ =~= old(output)@ + expect.0);
                        assert(final(warnings)@ =~= old(warnings)@ + expect.1);
                    }
                } else {
                    output.extend_from_slice(line);
                    warnings.push(Warning::SectionTextNotFound);
                    proof {
                        assert(final(output)@ =~= old(output)@ + expect.0);
                        assert(final(warnings)@ =~= old(warnings)@ + expect.1);
                    }
                }
            } else {
                assert(start + comment@.len() < line@.len());
                output.extend_from_slice(&line[0..start]);
                output.extend_from_slice(sec);
                output.extend_from_slice(&line[start + comment.len() + 1..line.len()]);
                proof {
                    assert(final(output)@ =~= old(output)@ + expect.0);
                    assert(final(warnings)@ =~= old(warnings)@ + expect.1);
                }
            }
        },
    }
}


/// One step of the engine: how one line is re-emitted, how the scope
/// changes, and which warnings are raised. A directive line is always
/// re-emitted unmodified; a line whose directive text matches no verb
/// passes through and leaves the scope untouched; blank lines inside a
/// region pass through; everything else follows the region's rewrite
/// rule.
pub open spec fn spec_step(
    line: Seq<u8>,
    seg: SpecSegment,
    comment: Seq<u8>,
    close: Option<Seq<u8>>,
    enabled: Seq<Seq<u8>>,
    disabled: Seq<Seq<u8>>,
    keep: bool,
) -> (Seq<u8>, SpecSegment, Seq<Warning>) {
    let t = crate::bytes::spec_trim(line);
    if spec_is_directive_line(t, comment) {
        match spec_directive(t, comment, close) {
            SpecDirective::End => (line, SpecSegment::Outside, Seq::<Warning>::empty()),
            SpecDirective::SectionText(sec) => {
                let w1 = if sec.len() == 0 {
                    seq![Warning::EmptySectionText]
                } else {
                    Seq::<Warning>::empty()
                };
                let w2 = if close is Some {
                    seq![Warning::SectionWithClosingComment]
                } else {
                    Seq::<Warning>::empty()
                };
                let next = if close is Some {
                    SpecSegment::Outside
                } else {
                    SpecSegment::InSection(sec)
                };
                (line, next, w1 + w2)
            },
            SpecDirective::OptionExpr(e) => (
                line,
                SpecSegment::InOption(spec_eval_expr(e, enabled, disabled, keep)),
                Seq::<Warning>::empty(),
            ),
            SpecDirective::Unknown => (line, seg, Seq::<Warning>::empty()),
        }
    } else {
        match seg {
            SpecSegment::Outside => (line, seg, Seq::<Warning>::empty()),
            SpecSegment::InSection(sec) => if t.len() == 0 || close is Some {
                (line, seg, Seq::<Warning>::empty())
            } else {
                let rw = spec_section_rewrite(line, sec, comment, enabled, disabled, keep);
                (rw.0, seg, rw.1)
            },
            SpecSegment::InOption(act) => if t.len() == 0 {
                (line, seg, Seq::<Warning>::empty())
            } else {
                (spec_option_rewrite(line, act, comment, close), seg, Seq::<Warning>::empty())
            },
        }
    }
}

/// Processes one line: appends its re-emitted form to `output`, any
/// warnings to `warnings`, and returns the next scope.
pub fn step_line(
    line: &[u8],
    seg: Segment,
    comment: &[u8],
    close: Option<&[u8]>,
    enabled: &Vec<Vec<u8>>,
    disabled: &Vec<Vec<u8>>,
    keep: bool,
    output: &mut Vec<u8>,
    warnings: &mut Vec<Warning>,
) -> (r: Segment)
    ensures
        ({
            let st = spec_step(
                line@,
                seg.view_spec(),
                comment@,
                spec_opt_bytes(close),
                enabled.deep_view(),
                disabled.deep_view(),
                keep,
            );
            &&& final(output)@ == old(output)@ + st.0
            &&& r.view_spec() == st.1
            &&& final(warnings)@ == old(warnings)@ + st.2
        }),
{
    let ghost st = spec_step(
        line@,
        seg.view_spec(),
        comment@,
        spec_opt_bytes(close),
        enabled.deep_view(),
        disabled.deep_view(),
        keep,
    );
    let t = crate::bytes::trim(line);
    match parse_directive(t, comment, close) {
        Some(d) => {
            output.extend_from_slice(line);
            proof {
                assert(final(output)@ =~= old(output)@ + st.0);
            }
            match d {
                Directive::End => {
                    proof {
                        assert(final(warnings)@ =~= old(warnings)@ + st.2);
                    }
                    Segment::Outside
                },
                Directive::SectionText(sec) => {
                    if sec.len() == 0 {
                        warnings.push(Warning::EmptySectionText);
                    }
                    if close.is_some() {
                        warnings.push(Warning::SectionWithClosingComment);
                        proof {
                            assert(final(warnings)@ =~= old(warnings)@ + st.2);
                        }
                        Segment::Outside
                    } else {
                        proof {
                            assert(final(warnings)@ =~= old(warnings)@ + st.2);
                        }
                        Segment::InSection(sec)
                    }
                },
                Directive::OptionExpr(e) => {
                    let act = eval_option_expr(e.as_slice(), enabled, disabled, keep);
                    proof {
                        assert(final(warnings)@ =~= old(warnings)@ + st.2);
                    }
                    Segment::InOption(act)
                },
                Directive::Unknown => {
                    proof {
                        assert(final(warnings)@ =~= old(warnings)@ + st.2);
                    }
                    seg
                },
            }
        },
        None => {
            match seg {
                Segment::Outside => {
                    output.extend_from_slice(line);
                    proof {
                        assert(final(output)@ =~= old(output)@ + st.0);
                        assert(final(warnings)@ =~= old(warnings)@ + st.2);
                    }
                    Segment::Outside
                },
                Segment::InSection(sec) => {
                    if t.len() == 0 || close.is_some() {
                        output.extend_from_slice(line);
                        proof {
                            assert(final(output)@ =~= old(output)@ + st.0);
                            assert(final(warnings)@ =~= old(warnings)@ + st.2);
                        }
                    } else {
                        section_rewrite(
                            line,
                            sec.as_slice(),
                            comment,
                            enabled,
                            disabled,
                            keep,
                            output,
                            warnings,
                        );
                    }
                    Segment::InSection(sec)
                },
                Segment::InOption(act) => {
                    if t.len() == 0 {
                        output.extend_from_slice(line);
                        proof {
                            assert(final(output)@ =~= old(output)@ + st.0);
                        }
                    } else {
                        option_rewrite(line, act, comment, close, output);
                    }
                    proof {
                        assert(final(warnings)@ =~= old(warnings)@ + st.2);
                    }
                    Segment::InOption(act)
                },
            }
        },
    }
}


/// The error the engine can report: no comment marker could be
/// resolved, either because the file has no lines at all or because
/// the auto-detected marker exceeds the configured length bound.
#[derive(Debug, PartialEq, Eq, Structural, Clone, Copy)]
pub enum ProcessError {
    CommentUnresolvable,
}

/// The reconstructed file contents together with the warnings raised
/// while processing.
pub struct ProcessOutput {
    pub output: Vec<u8>,
    pub warnings: Vec<Warning>,
}

/// The comment marker for a file, and whether taking it from the
/// file's first line deserves a warning. In order: a conventional
/// marker (`#`, `//`, `;`) at the very start of the file; the
/// caller-supplied marker; the first whitespace-delimited token of the
/// first line, subject to the length bound. `None` when the file has
/// no lines or the token is too long.
pub open spec fn spec_resolve_comment(
    config: Seq<u8>,
    supplied: Option<Seq<u8>>,
    max_len: Option<usize>,
) -> Option<(Seq<u8>, bool)> {
    if spec_starts_with(config, seq![35u8]) {
        Some((seq![35u8], false))
    } else if spec_starts_with(config, seq![47u8, 47u8]) {
        Some((seq![47u8, 47u8], false))
    } else if spec_starts_with(config, seq![59u8]) {
        Some((seq![59u8], false))
    } else {
        match supplied {
            Some(c) => Some((c, false)),
            None => {
                let ls = crate::bytes::spec_lines(config);
                if ls.len() == 0 {
                    None
                } else {
                    let first = ls[0];
                    let token = first.take(crate::bytes::first_where(first, crate::bytes::ws_fn()));
                    match max_len {
                        Some(m) => if token.len() > m {
                            None
                        } else {
                            Some((token, true))
                        },
                        None => Some((token, true)),
                    }
                }
            },
        }
    }
}

/// Resolves the comment marker of `config`, whose lines are `lines`.
pub fn resolve_comment(
    config: &[u8],
    supplied: Option<&[u8]>,
    max_len: Option<usize>,
    lines: &Vec<Vec<u8>>,
) -> (r: Option<(Vec<u8>, bool)>)
    requires
        lines.deep_view() == crate::bytes::spec_lines(config@),
    ensures
        match r {
            Some(p) => spec_resolve_comment(config@, spec_opt_bytes(supplied), max_len) == Some(
                (p.0@, p.1),
            ),
            None => spec_resolve_comment(config@, spec_opt_bytes(supplied), max_len) is None,
        },
{
    if config.len() >= 1 && config[0] == 35 {
        let mut v: Vec<u8> = Vec::new();
        v.push(35);
        proof {
            assert(config@.subrange(0, 1) =~= seq![config@[0]]);
            assert(v@ =~= seq![35u8]);
        }
        return Some((v, false));
    }
    if config.len() >= 2 && config[0] == 47 && config[1] == 47 {
        let mut v: Vec<u8> = Vec::new();
        v.push(47);
        v.push(47);
        proof {
            assert(config@.subrange(0, 2) =~= seq![config@[0], config@[1]]);
            assert(v@ =~= seq![47u8, 47u8]);
        }
        return Some((v, false));
    }
    if config.len() >= 1 && config[0] == 59 {
        let mut v: Vec<u8> = Vec::new();
        v.push(59);
        proof {
            assert(config@.subrange(0, 1) =~= seq![config@[0]]);
            assert(v@ =~= seq![59u8]);
        }
        return Some((v, false));
    }
    proof {
        if spec_starts_with(config@, seq![35u8]) {
            assert(config@.subrange(0, 1) == seq![35u8]);
            assert(config@.subrange(0, 1)[0] == config@[0]);
            assert(seq![35u8][0] == 35u8);
            assert(config@[0] == 35);
        }
        if spec_starts_with(config@, seq![47u8, 47u8]) {
            assert(config@.subrange(0, 2) == seq![47u8, 47u8]);
            assert(config@.subrange(0, 2)[0] == config@[0]);
            assert(config@.subrange(0, 2)[1] == config@[1]);
            assert(seq![47u8, 47u8][0] == 47u8 && seq![47u8, 47u8][1] == 47u8);
            assert(config@[0] == 47 && config@[1] == 47);
        }
        if spec_starts_with(config@, seq![59u8]) {
            assert(config@.subrange(0, 1) == seq![59u8]);
            assert(config@.subrange(0, 1)[0] == config@[0]);
            assert(seq![59u8][0] == 59u8);
            assert(config@[0] == 59);
        }
        assert(lines.deep_view().len() == lines@.len());
    }
    match supplied {
        Some(c) => Some((vstd::slice::slice_to_vec(c), false)),
        None => {
            if lines.len() == 0 {
                return None;
            }
            let first: &Vec<u8> = &lines[0];
            proof {
                assert(first@ == lines.deep_view()[0]);
            }
            let flen = first.len();
            let mut i: usize = 0;
            while i < first.len() && !crate::bytes::is_whitespace(first[i])
                invariant
                    0 <= i <= first@.len(),
                    first@.len() == flen,
                    forall|j: int|
                        0 <= j < i ==> !crate::bytes::spec_is_whitespace(first@[j]),
                decreases first@.len() - i,
            {
                i += 1;
            }
            proof {
                assert forall|j: int| 0 <= j < i implies !crate::bytes::ws_fn()(first@[j]) by {}
                if i < first@.len() {
                    assert(crate::bytes::ws_fn()(first@[i as int]));
                }
                crate::bytes::lemma_first_where_is(first@, crate::bytes::ws_fn(), i as int);
            }
            let token = vstd::slice::slice_to_vec(&first.as_slice()[0..i]);
            proof {
                assert(token@ =~= first@.take(i as int));
            }
            match max_len {
                Some(m) => if token.len() > m {
                    None
                } else {
                    Some((token, true))
                },
                None => Some((token, true)),
            }
        },
    }
}

/// The engine's pass over a sequence of lines: each line is re-emitted
/// by [`spec_step`] and terminated with `ending`; the scope threads
/// through; warnings accumulate in order.
pub open spec fn spec_run(
    ls: Seq<Seq<u8>>,
    seg: SpecSegment,
    comment: Seq<u8>,
    close: Option<Seq<u8>>,
    enabled: Seq<Seq<u8>>,
    disabled: Seq<Seq<u8>>,
    keep: bool,
    ending: Seq<u8>,
) -> (Seq<u8>, SpecSegment, Seq<Warning>)
    decreases ls.len(),
{
    if ls.len() == 0 {
        (Seq::<u8>::empty(), seg, Seq::<Warning>::empty())
    } else {
        let st = spec_step(ls[0], seg, comment, close, enabled, disabled, keep);
        let rest = spec_run(ls.skip(1), st.1, comment, close, enabled, disabled, keep, ending);
        (st.0 + ending + rest.0, rest.1, st.2 + rest.2)
    }
}

/// What processing a whole file yields: the reconstructed bytes and
/// the warnings, or `None` when no comment marker can be resolved.
/// The line-ending style is detected once from the input and applied
/// to every output line.
pub open spec fn spec_process(
    config: Seq<u8>,
    supplied_open: Option<Seq<u8>>,
    supplied_close: Option<Seq<u8>>,
    enabled: Seq<Seq<u8>>,
    disabled: Seq<Seq<u8>>,
    keep: bool,
    max_len: Option<usize>,
) -> Option<(Seq<u8>, Seq<Warning>)> {
    match spec_resolve_comment(config, supplied_open, max_len) {
        None => None,
        Some((comment, uncommon)) => {
            let run = spec_run(
                crate::bytes::spec_lines(config),
                SpecSegment::Outside,
                comment,
                supplied_close,
                enabled,
                disabled,
                keep,
                crate::bytes::spec_line_ending(config),
            );
            let w0 = if uncommon {
                seq![Warning::UncommonComment]
            } else {
                Seq::<Warning>::empty()
            };
            Some((run.0, w0 + run.2))
        },
    }
}

/// The view of the opening marker of an optional comment pair.
pub open spec fn spec_comment_open(c: &Option<Comment>) -> Option<Seq<u8>> {
    match c {
        Some(cm) => Some(cm.open_spec()),
        None => None,
    }
}

/// The view of the closing marker of an optional comment pair.
pub open spec fn spec_comment_close(c: &Option<Comment>) -> Option<Seq<u8>> {
    match c {
        Some(cm) => cm.close_spec(),
        None => None,
    }
}

/// Runs the toggling engine over the raw bytes of one configuration
/// file. `comment` optionally overrides comment-style auto-detection;
/// `enabled` and `disabled` are the caller's identifier sets; with
/// `keep`, identifiers in neither set retain their on-disk state;
/// `max_comment_len` bounds an auto-detected marker taken from the
/// file's first line. Returns the rewritten bytes and the warnings
/// raised, or the error when no comment marker can be resolved.
pub fn process_bytes(
    config: &[u8],
    comment: &Option<Comment>,
    enabled: &Vec<Vec<u8>>,
    disabled: &Vec<Vec<u8>>,
    keep: bool,
    max_comment_len: Option<usize>,
) -> (r: Result<ProcessOutput, ProcessError>)
    ensures
        match r {
            Ok(out) => spec_process(
                config@,
                spec_comment_open(comment),
                spec_comment_close(comment),
                enabled.deep_view(),
                disabled.deep_view(),
                keep,
                max_comment_len,
            ) == Some((out.output@, out.warnings@)),
            Err(e) => spec_process(
                config@,
                spec_comment_open(comment),
                spec_comment_close(comment),
                enabled.deep_view(),
                disabled.deep_view(),
                keep,
                max_comment_len,
            ) is None && e == ProcessError::CommentUnresolvable,
        },
{
    let ghost en = enabled.deep_view();
    let ghost dis = disabled.deep_view();
    let supplied_open: Option<&[u8]> = match comment {
        Some(cm) => Some(cm.open()),
        None => None,
    };
    let close: Option<&[u8]> = match comment {
        Some(cm) => cm.close(),
        None => None,
    };
    proof {
        assert(spec_opt_bytes(supplied_open) == spec_comment_open(comment));
        assert(spec_opt_bytes(close) == spec_comment_close(comment));
    }
    let ending = crate::bytes::get_line_ending(config);
    let lines = crate::bytes::get_lines(config);
    let resolved = resolve_comment(config, supplied_open, max_comment_len, &lines);
    let (marker, uncommon): (Vec<u8>, bool) = match resolved {
        Some(p) => p,
        None => {
            return Err(ProcessError::CommentUnresolvable);
        },
    };
    let ghost all = lines.deep_view();
    let ghost full = spec_run(
        all,
        SpecSegment::Outside,
        marker@,
        spec_opt_bytes(close),
        en,
        dis,
        keep,
        ending@,
    );
    let mut output: Vec<u8> = Vec::new();
    let mut warnings: Vec<Warning> = Vec::new();
    if uncommon {
        warnings.push(Warning::UncommonComment);
    }
    let ghost w0 = warnings@;
    let mut seg = Segment::Outside;
    let mut k: usize = 0;
    proof {
        assert(all.skip(0) =~= all);
        assert(output@ + full.0 =~= full.0);
        assert(w0 + full.2 =~= w0 + full.2);
    }
    while k < lines.len()
        invariant
            0 <= k <= lines@.len(),
            all == lines.deep_view(),
            full == spec_run(
                all,
                SpecSegment::Outside,
                marker@,
                spec_opt_bytes(close),
                en,
                dis,
                keep,
                ending@,
            ),
            en == enabled.deep_view(),
            dis == disabled.deep_view(),
            ({
                let rest = spec_run(
                    all.skip(k as int),
                    seg.view_spec(),
                    marker@,
                    spec_opt_bytes(close),
                    en,
                    dis,
                    keep,
                    ending@,
                );
                &&& output@ + rest.0 == full.0
                &&& rest.1 == full.1
                &&& warnings@ + rest.2 == w0 + full.2
            }),
        decreases lines@.len() - k,
    {
        let ghost seg_before = seg.view_spec();
        let ghost rest_before = spec_run(
            all.skip(k as int),
            seg_before,
            marker@,
            spec_opt_bytes(close),
            en,
            dis,
            keep,
            ending@,
        );
        let line: &Vec<u8> = &lines[k];
        proof {
            assert(line@ == all.skip(k as int)[0]);
        }
        seg = step_line(
            line.as_slice(),
            seg,
            marker.as_slice(),
            close,
            enabled,
            disabled,
            keep,
            &mut output,
            &mut warnings,
        );
        output.extend_from_slice(ending.as_slice());
        proof {
            let st = spec_step(
                line@,
                seg_before,
                marker@,
                spec_opt_bytes(close),
                en,
                dis,
                keep,
            );
            assert(all.skip(k as int).skip(1) =~= all.skip(k + 1));
            assert(rest_before == (
                st.0 + ending@ + spec_run(
                    all.skip(k + 1),
                    st.1,
                    marker@,
                    spec_opt_bytes(close),
                    en,
                    dis,
                    keep,
                    ending@,
                ).0,
                spec_run(
                    all.skip(k + 1),
                    st.1,
                    marker@,
                    spec_opt_bytes(close),
                    en,
                    dis,
                    keep,
                    ending@,
                ).1,
                st.2 + spec_run(
                    all.skip(k + 1),
                    st.1,
                    marker@,
                    spec_opt_bytes(close),
                    en,
                    dis,
                    keep,
                    ending@,
                ).2,
            ));
        }
        k += 1;
    }
    proof {
        assert(all.skip(k as int).len() == 0);
        let rest = spec_run(
            all.skip(k as int),
            seg.view_spec(),
            marker@,
            spec_opt_bytes(close),
            en,
            dis,
            keep,
            ending@,
        );
        assert(output@ + rest.0 =~= output@);
        assert(warnings@ + rest.2 =~= warnings@);
    }
    Ok(ProcessOutput { output, warnings })
}

} // verus!
