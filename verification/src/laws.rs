//! Properties of the engine, stated and proved against its
//! specification functions: the characterisation of the
//! option-expression evaluator, the inverse relation between line
//! splitting and joining, line-ending preservation, and round-trip
//! idempotence of whole runs.

use vstd::prelude::*;

use crate::engine::spec_and_sep;
use crate::engine::spec_eval_expr;
use crate::engine::spec_eval_parts;
use crate::engine::spec_option_rewrite;
use crate::engine::spec_status;
use crate::engine::OptionEnabled;
use crate::bytes::spec_starts_with;
use crate::split::fixed_first_match;
use crate::split::spec_split_fixed;

verus! {

/// Whether a conjunct of an option expression is negated by a leading
/// `!`.
pub open spec fn part_negate(part: Seq<u8>) -> bool {
    part.len() >= 1 && part[0] == 33
}

/// The identifier of a conjunct, with its negation stripped.
pub open spec fn part_ident(part: Seq<u8>) -> Seq<u8> {
    if part_negate(part) {
        part.skip(1)
    } else {
        part
    }
}

/// The tri-state status of a conjunct's identifier.
pub open spec fn part_status(
    part: Seq<u8>,
    enabled: Seq<Seq<u8>>,
    disabled: Seq<Seq<u8>>,
    keep: bool,
) -> Option<bool> {
    spec_status(part_ident(part), enabled, disabled, keep)
}

/// A conjunct with known status is satisfied when its identifier is
/// enabled and it is not negated, or disabled and negated.
pub open spec fn part_satisfied(
    part: Seq<u8>,
    enabled: Seq<Seq<u8>>,
    disabled: Seq<Seq<u8>>,
    keep: bool,
) -> bool {
    match part_status(part, enabled, disabled, keep) {
        Some(c) => if part_negate(part) {
            !c
        } else {
            c
        },
        None => false,
    }
}

/// The conjuncts of an option expression.
pub open spec fn expr_parts(expr: Seq<u8>) -> Seq<Seq<u8>> {
    spec_split_fixed(expr, spec_and_sep())
}

/// Folding conjuncts whose statuses are all known never yields
/// `Ignore`: the result is `No` exactly when some conjunct is
/// unsatisfied, and otherwise `Yes` (or the accumulator when there is
/// no conjunct at all).
proof fn lemma_eval_parts_known(
    parts: Seq<Seq<u8>>,
    acc: OptionEnabled,
    enabled: Seq<Seq<u8>>,
    disabled: Seq<Seq<u8>>,
    keep: bool,
)
    requires
        !(acc is No),
        forall|k: int| 0 <= k < parts.len() ==> part_status(#[trigger] parts[k], enabled, disabled, keep) is Some,
    ensures
        spec_eval_parts(parts, acc, enabled, disabled, keep) == (if exists|k: int|
            0 <= k < parts.len() && !part_satisfied(#[trigger] parts[k], enabled, disabled, keep) {
            OptionEnabled::No
        } else if parts.len() > 0 {
            OptionEnabled::Yes
        } else {
            acc
        }),
    decreases parts.len(),
{
    if parts.len() == 0 {
    } else {
        let part = parts[0];
        let rest = parts.skip(1);
        assert(part_status(part, enabled, disabled, keep) is Some);
        assert(forall|k: int| 0 <= k < rest.len() ==> rest[k] == parts[k + 1]);
        let c = part_status(part, enabled, disabled, keep)->Some_0;
        if (part_negate(part) && c) || (!part_negate(part) && !c) {
            assert(!part_satisfied(parts[0], enabled, disabled, keep));
        } else {
            assert(part_satisfied(parts[0], enabled, disabled, keep));
            lemma_eval_parts_known(rest, OptionEnabled::Yes, enabled, disabled, keep);
            if exists|k: int|
                0 <= k < rest.len() && !part_satisfied(
                    #[trigger] rest[k],
                    enabled,
                    disabled,
                    keep,
                ) {
                let k = choose|k: int|
                    0 <= k < rest.len() && !part_satisfied(
                        #[trigger] rest[k],
                        enabled,
                        disabled,
                        keep,
                    );
                assert(!part_satisfied(parts[k + 1], enabled, disabled, keep));
            } else {
                assert forall|k: int|
                    0 <= k < parts.len() implies part_satisfied(
                    #[trigger] parts[k],
                    enabled,
                    disabled,
                    keep,
                ) by {
                    if k >= 1 {
                        assert(parts[k] == rest[k - 1]);
                    }
                }
            }
        }
    }
}

/// An option expression has at least one conjunct.
pub proof fn lemma_expr_parts_nonempty(expr: Seq<u8>)
    ensures
        expr_parts(expr).len() >= 1,
{
}

/// When every conjunct of an option expression has a known status, the
/// expression evaluates to `No` exactly when at least one conjunct is
/// unsatisfied, and to `Yes` exactly when all conjuncts are satisfied.
pub proof fn lemma_eval_all_known(
    expr: Seq<u8>,
    enabled: Seq<Seq<u8>>,
    disabled: Seq<Seq<u8>>,
    keep: bool,
)
    requires
        forall|k: int|
            0 <= k < expr_parts(expr).len() ==> part_status(
                #[trigger] expr_parts(expr)[k],
                enabled,
                disabled,
                keep,
            ) is Some,
    ensures
        (spec_eval_expr(expr, enabled, disabled, keep) == OptionEnabled::No) <==> (exists|k: int|
            0 <= k < expr_parts(expr).len() && !part_satisfied(
                #[trigger] expr_parts(expr)[k],
                enabled,
                disabled,
                keep,
            )),
        (spec_eval_expr(expr, enabled, disabled, keep) == OptionEnabled::Yes) <==> (forall|k: int|
            0 <= k < expr_parts(expr).len() ==> part_satisfied(
                #[trigger] expr_parts(expr)[k],
                enabled,
                disabled,
                keep,
            )),
{
    lemma_expr_parts_nonempty(expr);
    lemma_eval_parts_known(expr_parts(expr), OptionEnabled::Ignore, enabled, disabled, keep);
}

/// Folding conjuncts whose statuses are all unknown changes nothing:
/// the accumulator comes back out.
proof fn lemma_eval_parts_unknown(
    parts: Seq<Seq<u8>>,
    acc: OptionEnabled,
    enabled: Seq<Seq<u8>>,
    disabled: Seq<Seq<u8>>,
    keep: bool,
)
    requires
        !(acc is No),
        forall|k: int| 0 <= k < parts.len() ==> part_status(#[trigger] parts[k], enabled, disabled, keep) is None,
    ensures
        spec_eval_parts(parts, acc, enabled, disabled, keep) == acc,
    decreases parts.len(),
{
    if parts.len() == 0 {
    } else {
        let rest = parts.skip(1);
        assert(part_status(parts[0], enabled, disabled, keep) is None);
        assert(forall|k: int| 0 <= k < rest.len() ==> rest[k] == parts[k + 1]);
        lemma_eval_parts_unknown(rest, acc, enabled, disabled, keep);
    }
}

/// When every conjunct of an option expression has unknown status, the
/// expression evaluates to `Ignore`, and a line under `Ignore` is
/// re-emitted byte for byte.
pub proof fn lemma_eval_all_unknown(
    expr: Seq<u8>,
    enabled: Seq<Seq<u8>>,
    disabled: Seq<Seq<u8>>,
    keep: bool,
)
    requires
        forall|k: int|
            0 <= k < expr_parts(expr).len() ==> part_status(
                #[trigger] expr_parts(expr)[k],
                enabled,
                disabled,
                keep,
            ) is None,
    ensures
        spec_eval_expr(expr, enabled, disabled, keep) == OptionEnabled::Ignore,
        forall|line: Seq<u8>, comment: Seq<u8>, close: Option<Seq<u8>>|
            #[trigger] spec_option_rewrite(line, OptionEnabled::Ignore, comment, close) == line,
{
    lemma_eval_parts_unknown(expr_parts(expr), OptionEnabled::Ignore, enabled, disabled, keep);
}

/// Negation: an expression that is exactly one negated identifier is
/// unsatisfied when the identifier is enabled, and satisfied when it
/// is disabled.
pub proof fn lemma_negation(
    x: Seq<u8>,
    enabled: Seq<Seq<u8>>,
    disabled: Seq<Seq<u8>>,
    keep: bool,
)
    requires
        fixed_first_match(seq![33u8] + x, spec_and_sep()) is None,
    ensures
        spec_status(x, enabled, disabled, keep) == Some(true) ==> spec_eval_expr(
            seq![33u8] + x,
            enabled,
            disabled,
            keep,
        ) == OptionEnabled::No,
        spec_status(x, enabled, disabled, keep) == Some(false) ==> spec_eval_expr(
            seq![33u8] + x,
            enabled,
            disabled,
            keep,
        ) == OptionEnabled::Yes,
{
    let expr = seq![33u8] + x;
    let parts = expr_parts(expr);
    assert(parts == seq![expr]);
    assert(expr[0] == 33);
    assert(part_negate(expr));
    assert(expr.skip(1) =~= x);
    assert(parts[0] == expr);
    assert(parts.skip(1) =~= Seq::<Seq<u8>>::empty());
    if spec_status(x, enabled, disabled, keep) is Some {
        let c = spec_status(x, enabled, disabled, keep)->Some_0;
        assert(spec_eval_parts(parts, OptionEnabled::Ignore, enabled, disabled, keep) == (if c {
            OptionEnabled::No
        } else {
            spec_eval_parts(
                parts.skip(1),
                OptionEnabled::Yes,
                enabled,
                disabled,
                keep,
            )
        }));
    }
}


/// A byte sequence without line breaks.
pub open spec fn nl_free(s: Seq<u8>) -> bool {
    forall|j: int| 0 <= j < s.len() ==> s[j] != 10 && s[j] != 13
}

/// One of the two line endings the engine emits.
pub open spec fn valid_ending(e: Seq<u8>) -> bool {
    e == seq![10u8] || e == seq![13u8, 10u8]
}

/// `ls` joined into one byte sequence, every line terminated by `e`.
pub open spec fn spec_join_lines(ls: Seq<Seq<u8>>, e: Seq<u8>) -> Seq<u8>
    decreases ls.len(),
{
    if ls.len() == 0 {
        Seq::empty()
    } else {
        ls[0] + e + spec_join_lines(ls.skip(1), e)
    }
}

/// Leading bytes that are not line breaks do not affect line-ending
/// detection.
proof fn lemma_line_ending_skip_prefix(l: Seq<u8>, rest: Seq<u8>)
    requires
        nl_free(l),
    ensures
        crate::bytes::spec_line_ending(l + rest) == crate::bytes::spec_line_ending(rest),
    decreases l.len(),
{
    if l.len() == 0 {
        assert(l + rest =~= rest);
    } else {
        assert((l + rest)[0] == l[0]);
        assert((l + rest).skip(1) =~= l.skip(1) + rest);
        lemma_line_ending_skip_prefix(l.skip(1), rest);
    }
}

/// The line ending detected in a join of break-free lines is the
/// ending they were joined with.
pub proof fn lemma_line_ending_of_join(ls: Seq<Seq<u8>>, e: Seq<u8>)
    requires
        valid_ending(e),
        ls.len() >= 1,
        forall|k: int| 0 <= k < ls.len() ==> nl_free(#[trigger] ls[k]),
    ensures
        crate::bytes::spec_line_ending(spec_join_lines(ls, e)) == e,
{
    let rest = e + spec_join_lines(ls.skip(1), e);
    assert(spec_join_lines(ls, e) =~= ls[0] + rest);
    lemma_line_ending_skip_prefix(ls[0], rest);
    assert(rest[0] == e[0]);
    if e == seq![13u8, 10u8] {
        assert(rest[0] == 13);
    } else {
        assert(rest[0] == 10);
    }
}

/// Splitting a join of break-free lines gives the lines back.
pub proof fn lemma_lines_of_join(ls: Seq<Seq<u8>>, e: Seq<u8>)
    requires
        valid_ending(e),
        forall|k: int| 0 <= k < ls.len() ==> nl_free(#[trigger] ls[k]),
    ensures
        crate::bytes::spec_lines(spec_join_lines(ls, e)) == ls,
    decreases ls.len(),
{
    let s = spec_join_lines(ls, e);
    if ls.len() == 0 {
        assert(crate::bytes::spec_lines(s) =~= ls);
    } else {
        let l0 = ls[0];
        let rest = spec_join_lines(ls.skip(1), e);
        assert(s =~= l0 + e + rest);
        assert forall|j: int| 0 <= j < l0.len() implies !crate::bytes::line_break_fn()(
            s[j],
        ) by {
            assert(s[j] == l0[j]);
        }
        assert(s[l0.len() as int] == e[0]);
        assert(crate::bytes::line_break_fn()(s[l0.len() as int]));
        crate::bytes::lemma_first_where_is(
            s,
            crate::bytes::line_break_fn(),
            l0.len() as int,
        );
        assert(s.take(l0.len() as int) =~= l0);
        let skip = if e == seq![13u8, 10u8] {
            2int
        } else {
            1int
        };
        assert(s[l0.len() as int] == 13 <==> e == seq![13u8, 10u8]);
        assert(e.len() == skip);
        assert(l0.len() + skip <= s.len());
        assert(s.skip(l0.len() + skip) =~= rest);
        lemma_lines_of_join(ls.skip(1), e);
        assert(crate::bytes::spec_lines(s) == seq![l0] + crate::bytes::spec_lines(rest));
        assert(seq![l0] + ls.skip(1) =~= ls);
    }
}

/// The per-line outputs of the engine's pass, in order.
pub open spec fn spec_rendered(
    ls: Seq<Seq<u8>>,
    seg: crate::engine::SpecSegment,
    comment: Seq<u8>,
    close: Option<Seq<u8>>,
    enabled: Seq<Seq<u8>>,
    disabled: Seq<Seq<u8>>,
    keep: bool,
) -> Seq<Seq<u8>>
    decreases ls.len(),
{
    if ls.len() == 0 {
        Seq::empty()
    } else {
        let st = crate::engine::spec_step(ls[0], seg, comment, close, enabled, disabled, keep);
        seq![st.0] + spec_rendered(ls.skip(1), st.1, comment, close, enabled, disabled, keep)
    }
}

/// The engine's output is its per-line outputs joined with the
/// detected ending.
pub proof fn lemma_run_is_join(
    ls: Seq<Seq<u8>>,
    seg: crate::engine::SpecSegment,
    comment: Seq<u8>,
    close: Option<Seq<u8>>,
    enabled: Seq<Seq<u8>>,
    disabled: Seq<Seq<u8>>,
    keep: bool,
    ending: Seq<u8>,
)
    ensures
        crate::engine::spec_run(ls, seg, comment, close, enabled, disabled, keep, ending).0
            == spec_join_lines(
            spec_rendered(ls, seg, comment, close, enabled, disabled, keep),
            ending,
        ),
    decreases ls.len(),
{
    if ls.len() == 0 {
    } else {
        let st = crate::engine::spec_step(ls[0], seg, comment, close, enabled, disabled, keep);
        lemma_run_is_join(ls.skip(1), st.1, comment, close, enabled, disabled, keep, ending);
        let rendered = spec_rendered(ls, seg, comment, close, enabled, disabled, keep);
        let rest = spec_rendered(ls.skip(1), st.1, comment, close, enabled, disabled, keep);
        assert(rendered.skip(1) =~= rest);
        assert(rendered[0] == st.0);
        assert(crate::engine::spec_run(ls, seg, comment, close, enabled, disabled, keep, ending).0
            =~= st.0 + ending + spec_join_lines(rest, ending));
    }
}


proof fn lemma_nl_free_concat(a: Seq<u8>, b: Seq<u8>)
    requires
        nl_free(a),
        nl_free(b),
    ensures
        nl_free(a + b),
{
    assert forall|j: int| 0 <= j < (a + b).len() implies (a + b)[j] != 10 && (a + b)[j]
        != 13 by {
        if j < a.len() {
            assert((a + b)[j] == a[j]);
        } else {
            assert((a + b)[j] == b[j - a.len()]);
        }
    }
}

proof fn lemma_nl_free_subrange(s: Seq<u8>, i: int, j: int)
    requires
        nl_free(s),
        0 <= i <= j <= s.len(),
    ensures
        nl_free(s.subrange(i, j)),
{
    assert forall|k: int| 0 <= k < j - i implies s.subrange(i, j)[k] != 10 && s.subrange(i, j)[k]
        != 13 by {
        assert(s.subrange(i, j)[k] == s[i + k]);
    }
}

/// A scope carries no line break: only a section's replacement text
/// holds bytes at all, and it is cut from a line.
pub open spec fn seg_nl_free(seg: crate::engine::SpecSegment) -> bool {
    match seg {
        crate::engine::SpecSegment::InSection(sec) => nl_free(sec),
        _ => true,
    }
}

/// One engine step on a break-free line, with break-free markers,
/// emits a break-free line and keeps the scope break-free.
proof fn lemma_step_nl_free(
    line: Seq<u8>,
    seg: crate::engine::SpecSegment,
    comment: Seq<u8>,
    close: Option<Seq<u8>>,
    enabled: Seq<Seq<u8>>,
    disabled: Seq<Seq<u8>>,
    keep: bool,
)
    requires
        nl_free(line),
        nl_free(comment),
        (close matches Some(c) ==> nl_free(c)),
        seg_nl_free(seg),
    ensures
        nl_free(
            crate::engine::spec_step(line, seg, comment, close, enabled, disabled, keep).0,
        ),
        seg_nl_free(
            crate::engine::spec_step(line, seg, comment, close, enabled, disabled, keep).1,
        ),
{
    let t = crate::bytes::spec_trim(line);
    crate::bytes::lemma_trim_bounds(line);
    lemma_nl_free_subrange(
        line,
        crate::bytes::spec_first_non_whitespace(line),
        crate::bytes::spec_last_non_whitespace(line),
    );
    let space = seq![32u8];
    assert(nl_free(space));
    if crate::engine::spec_is_directive_line(t, comment) {
        match crate::engine::spec_directive(t, comment, close) {
            crate::engine::SpecDirective::SectionText(sec) => {
                let rest = t.skip(comment.len() + 7 as int);
                lemma_nl_free_subrange(t, comment.len() + 7 as int, t.len() as int);
                lemma_nl_free_subrange(rest, 8, rest.len() as int);
            },
            _ => {},
        }
    } else {
        let start = crate::bytes::spec_first_non_whitespace(line);
        let m = comment.len() as int;
        match seg {
            crate::engine::SpecSegment::Outside => {},
            crate::engine::SpecSegment::InSection(sec) => {
                if t.len() == 0 || close is Some {
                } else {
                    let rw = crate::engine::spec_section_rewrite(
                        line,
                        sec,
                        comment,
                        enabled,
                        disabled,
                        keep,
                    );
                    let activate_opt = match crate::bytes::spec_get_last(line, comment) {
                        None => Some(false),
                        Some(id) => crate::engine::spec_status(id, enabled, disabled, keep),
                    };
                    match activate_opt {
                        None => {},
                        Some(activate) => {
                            let active = !crate::engine::spec_line_inactive(line, comment);
                            if active == activate {
                            } else if !activate {
                                if crate::bytes::spec_match_at(line, sec, start) {
                                    lemma_nl_free_subrange(line, 0, start);
                                    lemma_nl_free_subrange(
                                        line,
                                        start + sec.len() as int,
                                        line.len() as int,
                                    );
                                    lemma_nl_free_concat(line.take(start), comment);
                                    lemma_nl_free_concat(line.take(start) + comment, space);
                                    lemma_nl_free_concat(
                                        line.take(start) + comment + space,
                                        line.skip(start + sec.len()),
                                    );
                                }
                            } else {
                                lemma_nl_free_subrange(line, 0, start);
                                lemma_nl_free_subrange(line, start + m + 1, line.len() as int);
                                lemma_nl_free_concat(line.take(start), sec);
                                lemma_nl_free_concat(
                                    line.take(start) + sec,
                                    line.skip(start + m + 1),
                                );
                            }
                        },
                    }
                }
            },
            crate::engine::SpecSegment::InOption(act) => {
                if t.len() == 0 {
                } else {
                    let inactive = crate::engine::spec_line_inactive(line, comment);
                    match act {
                        crate::engine::OptionEnabled::Ignore => {},
                        crate::engine::OptionEnabled::Yes => {
                            if inactive {
                                match close {
                                    None => {
                                        lemma_nl_free_subrange(line, 0, start);
                                        lemma_nl_free_subrange(
                                            line,
                                            start + m + 1,
                                            line.len() as int,
                                        );
                                        lemma_nl_free_concat(
                                            line.take(start),
                                            line.skip(start + m + 1),
                                        );
                                    },
                                    Some(c) => {
                                        let end = crate::bytes::spec_last_non_whitespace(line);
                                        let cut = end - c.len() - 1;
                                        if start + m + 1 <= cut {
                                            lemma_nl_free_subrange(line, 0, start);
                                            lemma_nl_free_subrange(line, start + m + 1, cut);
                                            lemma_nl_free_subrange(line, end, line.len() as int);
                                            lemma_nl_free_concat(
                                                line.take(start),
                                                line.subrange(start + m + 1, cut),
                                            );
                                            lemma_nl_free_concat(
                                                line.take(start) + line.subrange(
                                                    start + m + 1,
                                                    cut,
                                                ),
                                                line.skip(end),
                                            );
                                        }
                                    },
                                }
                            }
                        },
                        crate::engine::OptionEnabled::No => {
                            if !inactive {
                                lemma_nl_free_subrange(line, 0, start);
                                lemma_nl_free_subrange(line, start, line.len() as int);
                                lemma_nl_free_concat(line.take(start), comment);
                                lemma_nl_free_concat(line.take(start) + comment, space);
                                lemma_nl_free_concat(
                                    line.take(start) + comment + space,
                                    line.skip(start),
                                );
                                match close {
                                    Some(c) => {
                                        lemma_nl_free_concat(space, c);
                                        lemma_nl_free_concat(
                                            line.take(start) + comment + space + line.skip(start),
                                            space + c,
                                        );
                                    },
                                    None => {
                                        assert(line.take(start) + comment + space + line.skip(start)
                                            + Seq::<u8>::empty() =~= line.take(start) + comment
                                            + space + line.skip(start));
                                    },
                                }
                            }
                        },
                    }
                }
            },
        }
    }
}

/// Every line of [`crate::bytes::spec_lines`] is break-free.
pub proof fn lemma_lines_nl_free(config: Seq<u8>)
    ensures
        forall|k: int|
            0 <= k < crate::bytes::spec_lines(config).len() ==> nl_free(
                #[trigger] crate::bytes::spec_lines(config)[k],
            ),
    decreases config.len(),
{
    if config.len() == 0 {
    } else {
        let e = crate::bytes::first_where(config, crate::bytes::line_break_fn());
        crate::bytes::lemma_first_where(config, crate::bytes::line_break_fn());
        assert forall|j: int| 0 <= j < e implies config.take(e)[j] != 10 && config.take(e)[j]
            != 13 by {
            assert(config.take(e)[j] == config[j]);
            assert(!crate::bytes::line_break_fn()(config[j]));
        }
        let skip = if e < config.len() && config[e] == 13 {
            2int
        } else {
            1int
        };
        let next = if e + skip > config.len() {
            config.len() as int
        } else {
            e + skip
        };
        lemma_lines_nl_free(config.skip(next));
        let ls = crate::bytes::spec_lines(config);
        let rest = crate::bytes::spec_lines(config.skip(next));
        assert forall|k: int| 0 <= k < ls.len() implies nl_free(#[trigger] ls[k]) by {
            if k >= 1 {
                assert(ls[k] == rest[k - 1]);
            }
        }
    }
}

/// Every rendered line is break-free when the input lines and markers
/// are.
proof fn lemma_rendered_nl_free(
    ls: Seq<Seq<u8>>,
    seg: crate::engine::SpecSegment,
    comment: Seq<u8>,
    close: Option<Seq<u8>>,
    enabled: Seq<Seq<u8>>,
    disabled: Seq<Seq<u8>>,
    keep: bool,
)
    requires
        forall|k: int| 0 <= k < ls.len() ==> nl_free(#[trigger] ls[k]),
        nl_free(comment),
        (close matches Some(c) ==> nl_free(c)),
        seg_nl_free(seg),
    ensures
        forall|k: int|
            0 <= k < spec_rendered(ls, seg, comment, close, enabled, disabled, keep).len()
                ==> nl_free(
                #[trigger] spec_rendered(ls, seg, comment, close, enabled, disabled, keep)[k],
            ),
    decreases ls.len(),
{
    if ls.len() == 0 {
    } else {
        let st = crate::engine::spec_step(ls[0], seg, comment, close, enabled, disabled, keep);
        lemma_step_nl_free(ls[0], seg, comment, close, enabled, disabled, keep);
        assert(forall|k: int| 0 <= k < ls.skip(1).len() ==> ls.skip(1)[k] == ls[k + 1]);
        lemma_rendered_nl_free(ls.skip(1), st.1, comment, close, enabled, disabled, keep);
        let r = spec_rendered(ls, seg, comment, close, enabled, disabled, keep);
        let rest = spec_rendered(ls.skip(1), st.1, comment, close, enabled, disabled, keep);
        assert forall|k: int| 0 <= k < r.len() implies nl_free(#[trigger] r[k]) by {
            if k >= 1 {
                assert(r[k] == rest[k - 1]);
            } else {
                assert(r[0] == st.0);
            }
        }
    }
}


/// Every line the engine emits for `ls`, starting from scope `seg`, is
/// a fixed point of the engine in the scope it was emitted from: a
/// second step re-emits it unchanged and moves to the same next scope.
/// Lines the engine does not rewrite satisfy this trivially.
pub open spec fn stable_run(
    ls: Seq<Seq<u8>>,
    seg: crate::engine::SpecSegment,
    comment: Seq<u8>,
    close: Option<Seq<u8>>,
    enabled: Seq<Seq<u8>>,
    disabled: Seq<Seq<u8>>,
    keep: bool,
) -> bool
    decreases ls.len(),
{
    if ls.len() == 0 {
        true
    } else {
        let st = crate::engine::spec_step(ls[0], seg, comment, close, enabled, disabled, keep);
        let st2 = crate::engine::spec_step(st.0, seg, comment, close, enabled, disabled, keep);
        st2.0 == st.0 && st2.1 == st.1 && stable_run(
            ls.skip(1),
            st.1,
            comment,
            close,
            enabled,
            disabled,
            keep,
        )
    }
}

/// A line that a step does not change is a fixed point of that step.
pub proof fn lemma_unchanged_step_stable(
    line: Seq<u8>,
    seg: crate::engine::SpecSegment,
    comment: Seq<u8>,
    close: Option<Seq<u8>>,
    enabled: Seq<Seq<u8>>,
    disabled: Seq<Seq<u8>>,
    keep: bool,
)
    requires
        crate::engine::spec_step(line, seg, comment, close, enabled, disabled, keep).0 == line,
    ensures
        ({
            let st = crate::engine::spec_step(line, seg, comment, close, enabled, disabled, keep);
            let st2 = crate::engine::spec_step(st.0, seg, comment, close, enabled, disabled, keep);
            st2.0 == st.0 && st2.1 == st.1
        }),
{
}

/// Re-rendering already-rendered lines changes nothing when every
/// rendered line is a fixed point.
proof fn lemma_rendered_fixed(
    ls: Seq<Seq<u8>>,
    seg: crate::engine::SpecSegment,
    comment: Seq<u8>,
    close: Option<Seq<u8>>,
    enabled: Seq<Seq<u8>>,
    disabled: Seq<Seq<u8>>,
    keep: bool,
)
    requires
        stable_run(ls, seg, comment, close, enabled, disabled, keep),
    ensures
        spec_rendered(
            spec_rendered(ls, seg, comment, close, enabled, disabled, keep),
            seg,
            comment,
            close,
            enabled,
            disabled,
            keep,
        ) == spec_rendered(ls, seg, comment, close, enabled, disabled, keep),
    decreases ls.len(),
{
    if ls.len() == 0 {
    } else {
        let st = crate::engine::spec_step(ls[0], seg, comment, close, enabled, disabled, keep);
        let r = spec_rendered(ls, seg, comment, close, enabled, disabled, keep);
        let rest = spec_rendered(ls.skip(1), st.1, comment, close, enabled, disabled, keep);
        lemma_rendered_fixed(ls.skip(1), st.1, comment, close, enabled, disabled, keep);
        assert(r[0] == st.0);
        assert(r.skip(1) =~= rest);
        assert(spec_rendered(r, seg, comment, close, enabled, disabled, keep) =~= seq![st.0]
            + spec_rendered(rest, st.1, comment, close, enabled, disabled, keep));
        assert(seq![st.0] + rest =~= r);
    }
}

/// There are as many rendered lines as input lines.
proof fn lemma_rendered_len(
    ls: Seq<Seq<u8>>,
    seg: crate::engine::SpecSegment,
    comment: Seq<u8>,
    close: Option<Seq<u8>>,
    enabled: Seq<Seq<u8>>,
    disabled: Seq<Seq<u8>>,
    keep: bool,
)
    ensures
        spec_rendered(ls, seg, comment, close, enabled, disabled, keep).len() == ls.len(),
    decreases ls.len(),
{
    if ls.len() == 0 {
    } else {
        let st = crate::engine::spec_step(ls[0], seg, comment, close, enabled, disabled, keep);
        lemma_rendered_len(ls.skip(1), st.1, comment, close, enabled, disabled, keep);
    }
}

/// The detected line ending is always one of the two the engine emits.
pub proof fn lemma_line_ending_valid(s: Seq<u8>)
    ensures
        valid_ending(crate::bytes::spec_line_ending(s)),
    decreases s.len(),
{
    if s.len() == 0 {
    } else if s[0] == 13 {
    } else if s[0] == 10 {
    } else {
        lemma_line_ending_valid(s.skip(1));
    }
}

/// The first line of a non-empty file is a break-free prefix of the
/// file, followed by a break byte if anything follows at all.
proof fn lemma_lines_first(config: Seq<u8>)
    requires
        crate::bytes::spec_lines(config).len() >= 1,
    ensures
        ({
            let l0 = crate::bytes::spec_lines(config)[0];
            &&& config.len() >= 1
            &&& l0.len() <= config.len()
            &&& config.take(l0.len() as int) == l0
            &&& nl_free(l0)
            &&& (l0.len() < config.len() ==> (config[l0.len() as int] == 10 || config[l0.len()
                as int] == 13))
        }),
{
    assert(config.len() >= 1);
    let e = crate::bytes::first_where(config, crate::bytes::line_break_fn());
    crate::bytes::lemma_first_where(config, crate::bytes::line_break_fn());
    let l0 = crate::bytes::spec_lines(config)[0];
    assert(l0 == config.take(e));
    assert(config.take(e) =~= config.take(config.take(e).len() as int));
    assert forall|j: int| 0 <= j < l0.len() implies l0[j] != 10 && l0[j] != 13 by {
        assert(l0[j] == config[j]);
        assert(!crate::bytes::line_break_fn()(config[j]));
    }
    if e < config.len() {
        assert(crate::bytes::line_break_fn()(config[e]));
    }
}

/// Two files whose first lines agree resolve to the same comment
/// marker under the same override and bound.
proof fn lemma_resolve_same(
    config: Seq<u8>,
    other: Seq<u8>,
    supplied: Option<Seq<u8>>,
    max_len: Option<usize>,
)
    requires
        crate::bytes::spec_lines(config).len() >= 1,
        crate::bytes::spec_lines(other).len() >= 1,
        crate::bytes::spec_lines(config)[0] == crate::bytes::spec_lines(other)[0],
    ensures
        crate::engine::spec_resolve_comment(config, supplied, max_len)
            == crate::engine::spec_resolve_comment(other, supplied, max_len),
{
    lemma_lines_first(config);
    lemma_lines_first(other);
    let l0 = crate::bytes::spec_lines(config)[0];
    lemma_starts_one(config, l0, 35u8);
    lemma_starts_one(other, l0, 35u8);
    lemma_starts_one(config, l0, 59u8);
    lemma_starts_one(other, l0, 59u8);
    lemma_starts_two(config, l0, 47u8, 47u8);
    lemma_starts_two(other, l0, 47u8, 47u8);
    assert(spec_starts_with(config, seq![35u8]) == spec_starts_with(other, seq![35u8]));
    assert(spec_starts_with(config, seq![59u8]) == spec_starts_with(other, seq![59u8]));
}

/// How a one-byte prefix test on a file is decided by its first line.
proof fn lemma_starts_one(config: Seq<u8>, l0: Seq<u8>, b: u8)
    requires
        config.len() >= 1,
        l0.len() <= config.len(),
        config.take(l0.len() as int) == l0,
        l0.len() < config.len() ==> (config[l0.len() as int] == 10 || config[l0.len() as int]
            == 13),
        b != 10 && b != 13,
    ensures
        spec_starts_with(config, seq![b]) == (l0.len() >= 1 && l0[0] == b),
{
    if l0.len() >= 1 {
        assert(config[0] == config.take(l0.len() as int)[0]);
        if spec_starts_with(config, seq![b]) {
            assert(config.subrange(0, 1) == seq![b]);
            assert(config.subrange(0, 1)[0] == config[0]);
            assert(seq![b][0] == b);
        }
        if l0[0] == b {
            assert(config.subrange(0, 1) =~= seq![b]);
        }
    } else {
        assert(config[0] == 10 || config[0] == 13);
        if spec_starts_with(config, seq![b]) {
            assert(config.subrange(0, 1)[0] == config[0]);
            assert(seq![b][0] == b);
        }
    }
}

/// How a two-byte prefix test on a file is decided by its first line.
proof fn lemma_starts_two(config: Seq<u8>, l0: Seq<u8>, b0: u8, b1: u8)
    requires
        config.len() >= 1,
        l0.len() <= config.len(),
        config.take(l0.len() as int) == l0,
        l0.len() < config.len() ==> (config[l0.len() as int] == 10 || config[l0.len() as int]
            == 13),
        nl_free(l0),
        b0 != 10 && b0 != 13 && b1 != 10 && b1 != 13,
    ensures
        spec_starts_with(config, seq![b0, b1]) == (l0.len() >= 2 && l0[0] == b0 && l0[1] == b1),
{
    if spec_starts_with(config, seq![b0, b1]) {
        assert(config.subrange(0, 2)[0] == config[0]);
        assert(config.subrange(0, 2)[1] == config[1]);
        assert(seq![b0, b1][0] == b0 && seq![b0, b1][1] == b1);
        assert(config[0] == b0 && config[1] == b1);
        if l0.len() == 0 {
            assert(config[0] == 10 || config[0] == 13);
        } else if l0.len() == 1 {
            assert(config[1] == 10 || config[1] == 13);
        } else {
            assert(l0[0] == config.take(l0.len() as int)[0]);
            assert(l0[1] == config.take(l0.len() as int)[1]);
        }
    } else {
        if l0.len() >= 2 && l0[0] == b0 && l0[1] == b1 {
            assert(config[0] == config.take(l0.len() as int)[0]);
            assert(config[1] == config.take(l0.len() as int)[1]);
            assert(config.subrange(0, 2) =~= seq![b0, b1]);
        }
    }
}


/// Round-trip idempotence: when every line the engine emits is a fixed
/// point of the engine in its scope — [`stable_run`]; lines the engine
/// leaves alone always are — a second run over the output, with the
/// same override, sets, `keep` flag and bound, reproduces the output
/// byte for byte.
pub proof fn lemma_process_idempotent(
    config: Seq<u8>,
    so: Option<Seq<u8>>,
    sc: Option<Seq<u8>>,
    enabled: Seq<Seq<u8>>,
    disabled: Seq<Seq<u8>>,
    keep: bool,
    max_len: Option<usize>,
)
    requires
        crate::engine::spec_process(config, so, sc, enabled, disabled, keep, max_len) is Some,
        (so matches Some(c) ==> nl_free(c)),
        (sc matches Some(c) ==> nl_free(c)),
        stable_run(
            crate::bytes::spec_lines(config),
            crate::engine::SpecSegment::Outside,
            crate::engine::spec_resolve_comment(config, so, max_len)->Some_0.0,
            sc,
            enabled,
            disabled,
            keep,
        ),
    ensures
        ({
            let out = crate::engine::spec_process(
                config,
                so,
                sc,
                enabled,
                disabled,
                keep,
                max_len,
            )->Some_0.0;
            &&& crate::engine::spec_process(out, so, sc, enabled, disabled, keep, max_len) is Some
            &&& crate::engine::spec_process(out, so, sc, enabled, disabled, keep, max_len)
                ->Some_0.0 == out
        }),
{
    let outside = crate::engine::SpecSegment::Outside;
    let m = crate::engine::spec_resolve_comment(config, so, max_len)->Some_0.0;
    let ls = crate::bytes::spec_lines(config);
    let e = crate::bytes::spec_line_ending(config);
    let out = crate::engine::spec_process(config, so, sc, enabled, disabled, keep, max_len)
        ->Some_0.0;
    let rendered = spec_rendered(ls, outside, m, sc, enabled, disabled, keep);
    lemma_run_is_join(ls, outside, m, sc, enabled, disabled, keep, e);
    assert(out == spec_join_lines(rendered, e));
    if ls.len() == 0 {
        if config.len() != 0 {
            assert(ls.len() >= 1);
        }
        assert(out =~= config);
    } else {
        lemma_lines_nl_free(config);
        lemma_lines_first(config);
        assert(nl_free(m)) by {
            if spec_starts_with(config, seq![35u8]) {
                assert(m == seq![35u8]);
                assert(forall|j: int| 0 <= j < 1 ==> seq![35u8][j] == 35);
            } else if spec_starts_with(config, seq![47u8, 47u8]) {
                assert(m == seq![47u8, 47u8]);
                assert(seq![47u8, 47u8][0] == 47 && seq![47u8, 47u8][1] == 47);
            } else if spec_starts_with(config, seq![59u8]) {
                assert(m == seq![59u8]);
                assert(forall|j: int| 0 <= j < 1 ==> seq![59u8][j] == 59);
            } else {
                match so {
                    Some(c) => {
                        assert(m == c);
                    },
                    None => {
                        let first = ls[0];
                        crate::bytes::lemma_first_where(first, crate::bytes::ws_fn());
                        let fw = crate::bytes::first_where(first, crate::bytes::ws_fn());
                        assert(m == first.take(fw));
                        assert(first.take(fw) =~= first.subrange(0, fw));
                        lemma_nl_free_subrange(first, 0, fw);
                    },
                }
            }
        }
        lemma_line_ending_valid(config);
        lemma_rendered_nl_free(ls, outside, m, sc, enabled, disabled, keep);
        lemma_rendered_len(ls, outside, m, sc, enabled, disabled, keep);
        lemma_lines_of_join(rendered, e);
        assert(crate::engine::spec_step(ls[0], outside, m, sc, enabled, disabled, keep).0
            == ls[0]);
        assert(rendered[0] == ls[0]);
        lemma_resolve_same(config, out, so, max_len);
        lemma_line_ending_of_join(rendered, e);
        lemma_rendered_fixed(ls, outside, m, sc, enabled, disabled, keep);
        lemma_run_is_join(rendered, outside, m, sc, enabled, disabled, keep, e);
        assert(crate::engine::spec_process(out, so, sc, enabled, disabled, keep, max_len)
            ->Some_0.0 == spec_join_lines(
            spec_rendered(rendered, outside, m, sc, enabled, disabled, keep),
            e,
        ));
    }
}

/// Line-ending preservation: a file whose lines are uniformly joined
/// with one ending style keeps exactly that style on output, whatever
/// subset of lines the engine rewrites.
pub proof fn lemma_uniform_ending_preserved(
    ls: Seq<Seq<u8>>,
    e: Seq<u8>,
    so: Option<Seq<u8>>,
    sc: Option<Seq<u8>>,
    enabled: Seq<Seq<u8>>,
    disabled: Seq<Seq<u8>>,
    keep: bool,
    max_len: Option<usize>,
)
    requires
        valid_ending(e),
        ls.len() >= 1,
        forall|k: int| 0 <= k < ls.len() ==> nl_free(#[trigger] ls[k]),
    ensures
        ({
            let config = spec_join_lines(ls, e);
            &&& crate::bytes::spec_line_ending(config) == e
            &&& (crate::engine::spec_process(config, so, sc, enabled, disabled, keep, max_len)
                is Some ==> crate::engine::spec_process(
                config,
                so,
                sc,
                enabled,
                disabled,
                keep,
                max_len,
            )->Some_0.0 == spec_join_lines(
                spec_rendered(
                    ls,
                    crate::engine::SpecSegment::Outside,
                    crate::engine::spec_resolve_comment(config, so, max_len)->Some_0.0,
                    sc,
                    enabled,
                    disabled,
                    keep,
                ),
                e,
            ))
        }),
{
    let config = spec_join_lines(ls, e);
    lemma_line_ending_of_join(ls, e);
    lemma_lines_of_join(ls, e);
    if crate::engine::spec_process(config, so, sc, enabled, disabled, keep, max_len) is Some {
        let m = crate::engine::spec_resolve_comment(config, so, max_len)->Some_0.0;
        lemma_run_is_join(
            ls,
            crate::engine::SpecSegment::Outside,
            m,
            sc,
            enabled,
            disabled,
            keep,
            e,
        );
    }
}


/// Commenting a line out is stable: the line an option region under
/// `No` rewrites — with a comment marker that is non-empty and does
/// not begin with whitespace — is inactive, so a second pass over it
/// in the same region re-emits it unchanged. The one caveat is a
/// rewrite whose result happens to spell a directive line; that case
/// is excluded here.
pub proof fn lemma_comment_rewrite_stable(
    line: Seq<u8>,
    comment: Seq<u8>,
    close: Option<Seq<u8>>,
    enabled: Seq<Seq<u8>>,
    disabled: Seq<Seq<u8>>,
    keep: bool,
)
    requires
        comment.len() >= 1,
        !crate::bytes::spec_is_whitespace(comment[0]),
        crate::bytes::spec_trim(line).len() > 0,
        !crate::engine::spec_is_directive_line(crate::bytes::spec_trim(line), comment),
        !crate::engine::spec_line_inactive(line, comment),
        !crate::engine::spec_is_directive_line(
            crate::bytes::spec_trim(
                crate::engine::spec_step(
                    line,
                    crate::engine::SpecSegment::InOption(crate::engine::OptionEnabled::No),
                    comment,
                    close,
                    enabled,
                    disabled,
                    keep,
                ).0,
            ),
            comment,
        ),
    ensures
        ({
            let seg = crate::engine::SpecSegment::InOption(crate::engine::OptionEnabled::No);
            let st = crate::engine::spec_step(line, seg, comment, close, enabled, disabled, keep);
            let st2 = crate::engine::spec_step(st.0, seg, comment, close, enabled, disabled, keep);
            st2.0 == st.0 && st2.1 == st.1
        }),
{
    let seg = crate::engine::SpecSegment::InOption(crate::engine::OptionEnabled::No);
    let st = crate::engine::spec_step(line, seg, comment, close, enabled, disabled, keep);
    let start = crate::bytes::spec_first_non_whitespace(line);
    crate::bytes::lemma_trim_bounds(line);
    crate::bytes::lemma_first_where(line, crate::bytes::non_ws_fn());
    let fw = crate::bytes::first_where(line, crate::bytes::non_ws_fn());
    assert(fw < line.len()) by {
        if fw == line.len() {
            assert(crate::bytes::spec_first_non_whitespace(line) == 0);
            assert(crate::bytes::spec_last_non_whitespace(line) == 0) by {
                crate::bytes::lemma_last_where_end(line, crate::bytes::non_ws_fn());
                let lw = crate::bytes::spec_last_non_whitespace(line);
                if lw > 0 {
                    assert(crate::bytes::non_ws_fn()(line[lw - 1]));
                }
            }
        }
    }
    assert(start == fw);
    assert(forall|j: int| 0 <= j < start ==> crate::bytes::spec_is_whitespace(line[j]));
    let tail = match close {
        Some(c) => seq![32u8] + c,
        None => Seq::<u8>::empty(),
    };
    let r = line.take(start) + comment + seq![32u8] + line.skip(start) + tail;
    assert(st.0 == r);
    // The rewritten line still begins with the old leading whitespace,
    // then the marker's first byte.
    assert forall|j: int| 0 <= j < start implies crate::bytes::spec_is_whitespace(r[j]) by {
        assert(r[j] == line[j]);
    }
    assert(r[start] == comment[0]);
    assert(crate::bytes::non_ws_fn()(r[start]));
    crate::bytes::lemma_first_where_is(r, crate::bytes::non_ws_fn(), start);
    assert(crate::bytes::spec_first_non_whitespace(r) == start);
    // After the whitespace the rewrite placed the marker and a space.
    assert(r.subrange(start, start + comment.len() as int) =~= comment);
    assert(r[start + comment.len() as int] == 32);
    assert(crate::engine::spec_line_inactive(r, comment));
    // The rewritten line does not trim to nothing.
    assert(crate::bytes::spec_trim(r).len() > 0) by {
        crate::bytes::lemma_last_where_end(r, crate::bytes::non_ws_fn());
        let lw = crate::bytes::spec_last_non_whitespace(r);
        if lw <= start {
            assert(!crate::bytes::non_ws_fn()(r[start]));
        }
        crate::bytes::lemma_trim_bounds(r);
    }
    let st2 = crate::engine::spec_step(st.0, seg, comment, close, enabled, disabled, keep);
    assert(st2.0 == r);
}

} // verus!

verus! {

/// Deactivating a section line is stable: the line a section region
/// rewrites to its inactive form — with a comment marker that is
/// non-empty and does not begin with whitespace — is re-emitted
/// unchanged by a second pass, as long as the identifier now trailing
/// the rewritten line does not read as enabled, and the rewrite did
/// not happen to spell a directive line.
pub proof fn lemma_section_deactivate_stable(
    line: Seq<u8>,
    sec: Seq<u8>,
    comment: Seq<u8>,
    close: Option<Seq<u8>>,
    enabled: Seq<Seq<u8>>,
    disabled: Seq<Seq<u8>>,
    keep: bool,
)
    requires
        comment.len() >= 1,
        !crate::bytes::spec_is_whitespace(comment[0]),
        close is None,
        crate::bytes::spec_trim(line).len() > 0,
        !crate::engine::spec_is_directive_line(crate::bytes::spec_trim(line), comment),
        // the section region decided to deactivate an active line whose
        // head is the replacement text
        (match crate::bytes::spec_get_last(line, comment) {
            None => true,
            Some(id) => crate::engine::spec_status(id, enabled, disabled, keep) == Some(false),
        }),
        !crate::engine::spec_line_inactive(line, comment),
        crate::bytes::spec_match_at(line, sec, crate::bytes::spec_first_non_whitespace(line)),
        // conditions on the rewritten line
        ({
            let st = crate::engine::spec_step(
                line,
                crate::engine::SpecSegment::InSection(sec),
                comment,
                close,
                enabled,
                disabled,
                keep,
            );
            &&& !crate::engine::spec_is_directive_line(crate::bytes::spec_trim(st.0), comment)
            &&& (match crate::bytes::spec_get_last(st.0, comment) {
                None => true,
                Some(id) => crate::engine::spec_status(id, enabled, disabled, keep) != Some(true),
            })
        }),
    ensures
        ({
            let seg = crate::engine::SpecSegment::InSection(sec);
            let st = crate::engine::spec_step(line, seg, comment, close, enabled, disabled, keep);
            let st2 = crate::engine::spec_step(st.0, seg, comment, close, enabled, disabled, keep);
            st2.0 == st.0 && st2.1 == st.1
        }),
{
    let seg = crate::engine::SpecSegment::InSection(sec);
    let st = crate::engine::spec_step(line, seg, comment, close, enabled, disabled, keep);
    let start = crate::bytes::spec_first_non_whitespace(line);
    crate::bytes::lemma_trim_bounds(line);
    crate::bytes::lemma_first_where(line, crate::bytes::non_ws_fn());
    let fw = crate::bytes::first_where(line, crate::bytes::non_ws_fn());
    assert(fw < line.len()) by {
        if fw == line.len() {
            assert(crate::bytes::spec_first_non_whitespace(line) == 0);
            assert(crate::bytes::spec_last_non_whitespace(line) == 0) by {
                crate::bytes::lemma_last_where_end(line, crate::bytes::non_ws_fn());
                let lw = crate::bytes::spec_last_non_whitespace(line);
                if lw > 0 {
                    assert(crate::bytes::non_ws_fn()(line[lw - 1]));
                }
            }
        }
    }
    assert(start == fw);
    assert(forall|j: int| 0 <= j < start ==> crate::bytes::spec_is_whitespace(line[j]));
    let r = line.take(start) + comment + seq![32u8] + line.skip(start + sec.len() as int);
    assert(st.0 == r);
    assert forall|j: int| 0 <= j < start implies crate::bytes::spec_is_whitespace(r[j]) by {
        assert(r[j] == line[j]);
    }
    assert(r[start] == comment[0]);
    assert(crate::bytes::non_ws_fn()(r[start]));
    crate::bytes::lemma_first_where_is(r, crate::bytes::non_ws_fn(), start);
    assert(crate::bytes::spec_first_non_whitespace(r) == start);
    assert(r.subrange(start, start + comment.len() as int) =~= comment);
    assert(r[start + comment.len() as int] == 32);
    assert(crate::engine::spec_line_inactive(r, comment));
    assert(crate::bytes::spec_trim(r).len() > 0) by {
        crate::bytes::lemma_last_where_end(r, crate::bytes::non_ws_fn());
        let lw = crate::bytes::spec_last_non_whitespace(r);
        if lw <= start {
            assert(!crate::bytes::non_ws_fn()(r[start]));
        }
        crate::bytes::lemma_trim_bounds(r);
    }
    let st2 = crate::engine::spec_step(st.0, seg, comment, close, enabled, disabled, keep);
    assert(st2.0 == r);
}

} // verus!
