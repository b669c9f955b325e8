//! Properties that hold across the operations.
use vstd::prelude::*;
use crate::types::{IDVersion, IdError, IdView, Range, is_reverse, range_len};
use crate::chain::{
    chain_error,
    chain_error_from,
    lemma_valid_chain,
    valid_chain,
    range_error,
    range_text,
    ranges_text,
};
use crate::convert::{Peeled, append_ranges, classify, legacy_range, peel_legacy};
use crate::parse::{parse_spec, peel_canonical, strict_tail};
use crate::tail::{
    cut,
    has_tail,
    hi_begin,
    hi_end,
    lemma_run_begin_exact,
    lo_begin,
    lo_end,
    tail_hi,
    tail_lo,
    tail_marker,
    tail_prefix,
};
use crate::text::{decimal, has_rejected, is_digit, is_rejected_char, lemma_decimal};
use crate::head::{colon_free, head_parts, head_text};
use crate::identifier::{legacy_spec, render_spec, unknown_spec};
use crate::normalize::{fold_chain, folded_range, lemma_fold_bounds, normalize_spec};

verus! {

/// Every range of a successfully parsed identifier has `start <= end`.
pub proof fn lemma_parsed_ranges_ordered(t: Seq<char>)
    requires
        parse_spec(t) is Ok,
    ensures
        forall|i: int|
            0 <= i < parse_spec(t)->Ok_0.ranges.len() ==> #[trigger] parse_spec(t)->Ok_0.ranges[i].start
                <= parse_spec(t)->Ok_0.ranges[i].end,
{
    lemma_peel_canonical_shape(t);
}

/// The chain of an identifier read in unknown grammar is valid: every range is
/// ordered and non-zero, and each range ends within the length of the range
/// that contains it.
pub proof fn lemma_converted_chain_nested(id: Seq<char>, zbho: bool)
    ensures
        match unknown_spec(id, zbho) {
            Ok((v, _)) => {
                &&& valid_chain(v.ranges)
                &&& forall|i: int|
                    0 <= i < v.ranges.len() - 1 ==> #[trigger] v.ranges[i + 1].end <= range_len(
                        v.ranges[i],
                    )
            },
            Err(_) => true,
        },
{
    if let Ok((v, _)) = unknown_spec(id, zbho) {
        let rs = v.ranges;
        assert(rs == peel_legacy(id, None, zbho)->Ok_0.ranges);
        lemma_valid_chain(rs);
        assert forall|i: int| 0 <= i < rs.len() - 1 implies #[trigger] rs[i + 1].end <= range_len(
            rs[i],
        ) by {
            assert(rs[i + 1].end <= range_len(rs[(i + 1) - 1]));
        }
    }
}

/// Normalizing a normalized identifier changes nothing.
pub proof fn lemma_normalize_idempotent(v: IdView)
    requires
        normalize_spec(v) is Ok,
    ensures
        normalize_spec(normalize_spec(v)->Ok_0) == normalize_spec(v),
{
    if v.ranges.len() > 0 {
        let rs = v.ranges;
        lemma_valid_chain(rs);
        lemma_fold_bounds(rs);
        let n = normalize_spec(v)->Ok_0;
        let fr = folded_range(rs);
        let one = seq![fr];
        assert(n.ranges == one);
        assert(chain_error_from(one, 1) is None);
        assert(chain_error(one) is None);
        assert(fold_chain(one) == (fr.start as int, fr.end as int, is_reverse(fr)));
        assert(folded_range(one) == fr);
    }
}

/// A chain of two reverse ranges that is valid folds to a forward range.
pub proof fn lemma_reverse_twice_is_forward(v: IdView)
    requires
        v.ranges.len() == 2,
        is_reverse(v.ranges[0]),
        is_reverse(v.ranges[1]),
        chain_error(v.ranges) is None,
    ensures
        normalize_spec(v) is Ok,
        normalize_spec(v)->Ok_0.ranges == seq![folded_range(v.ranges)],
        folded_range(v.ranges).orientation == '+',
{
    let rs = v.ranges;
    let inner = fold_chain(rs.drop_first());
    assert(rs.drop_first().len() == 1);
    assert(rs.drop_first()[0] == rs[1]);
    assert(inner.2 == is_reverse(rs[1]));
    assert(fold_chain(rs).2 == (inner.2 != is_reverse(rs[0])));
}

/// A reverse range that starts at 1 composed with itself gives the same range,
/// forward.
pub proof fn lemma_reverse_self_composition(v: IdView, r: Range)
    requires
        v.ranges == seq![r, r],
        is_reverse(r),
        1 == r.start <= r.end,
    ensures
        normalize_spec(v) == Ok::<IdView, IdError>(
            IdView {
                assembly: v.assembly,
                sequence: v.sequence,
                ranges: seq![Range { start: r.start, end: r.end, orientation: '+' }],
                version: IDVersion::V2,
            },
        ),
{
    let rs = v.ranges;
    assert(range_error(rs, 0) is None);
    assert(range_error(rs, 1) is None);
    assert(chain_error_from(rs, 2) is None);
    assert(chain_error_from(rs, 1) is None);
    assert(rs.drop_first() =~= seq![r]);
    let inner = fold_chain(rs.drop_first());
    assert(inner == (r.start as int, r.end as int, true));
    assert(fold_chain(rs) == (r.end as int, r.start as int, false));
    assert(folded_range(rs) == Range { start: r.start, end: r.end, orientation: '+' });
}

/// Text followed by the text of an ordered range ends in a canonical suffix that
/// reads back as that range, with the text before it as prefix.
proof fn lemma_range_suffix(x: Seq<char>, r: Range)
    requires
        r.start <= r.end,
        r.orientation == '+' || r.orientation == '-',
    ensures
        strict_tail(x + range_text(r)),
        tail_prefix(x + range_text(r)) == x,
        legacy_range(x + range_text(r), false) == Ok::<Range, IdError>(r),
{
    let d1 = decimal(r.start as nat);
    let d2 = decimal(r.end as nat);
    lemma_decimal(r.start as nat);
    lemma_decimal(r.end as nat);
    let s = x + range_text(r);
    let c = x.len() as int;
    let lb = c + 1;
    let le = lb + d1.len();
    let hb = le + 1;
    let he = hb + d2.len();
    assert(s =~= x + seq![':'] + d1 + seq!['-'] + d2 + seq!['_', r.orientation]);
    assert(s.len() == he + 2);
    assert(s[c] == ':');
    assert(s[le] == '-');
    assert(s[he] == '_');
    assert(s[he + 1] == r.orientation);
    assert(s.subrange(lb, le) =~= d1);
    assert(s.subrange(hb, he) =~= d2);
    assert forall|j: int| lb <= j < le implies is_digit(#[trigger] s[j]) by {
        assert(s[j] == d1[j - lb]);
    }
    assert forall|j: int| hb <= j < he implies is_digit(#[trigger] s[j]) by {
        assert(s[j] == d2[j - hb]);
    }
    assert(hi_end(s) == he);
    lemma_run_begin_exact(s, hb, he);
    assert(hi_begin(s) == hb);
    assert(lo_end(s) == le);
    lemma_run_begin_exact(s, lb, le);
    assert(lo_begin(s) == lb);
    assert(cut(s) == c);
    assert(has_tail(s));
    assert(tail_marker(s) == Some(r.orientation));
    assert(classify(s) == IDVersion::V2);
    assert(tail_prefix(s) =~= x);
    assert(tail_lo(s) == r.start);
    assert(tail_hi(s) == r.end);
}

pub open spec fn canonical_ranges(rs: Seq<Range>) -> bool {
    forall|i: int|
        0 <= i < rs.len() ==> #[trigger] rs[i].start <= rs[i].end && (rs[i].orientation == '+'
            || rs[i].orientation == '-')
}

proof fn lemma_peel_step(s: Seq<char>, x: Seq<char>, r: Range)
    requires
        strict_tail(s),
        tail_prefix(s) == x,
        legacy_range(s, false) == Ok::<Range, IdError>(r),
    ensures
        peel_canonical(s) == append_ranges(peel_canonical(x), seq![r]),
{
}

/// Peeling the canonical text of ordered ranges written after a head with no
/// canonical suffix gives back the head and the ranges.
proof fn lemma_peel_rendered(h: Seq<char>, rs: Seq<Range>)
    requires
        !strict_tail(h),
        canonical_ranges(rs),
    ensures
        peel_canonical(h + ranges_text(rs)) == Ok::<Peeled, IdError>(
            Peeled { rest: h, ranges: rs, grammar: None },
        ),
    decreases rs.len(),
{
    if rs.len() == 0 {
        assert(h + ranges_text(rs) =~= h);
        assert(rs =~= Seq::<Range>::empty());
    } else {
        let front = rs.drop_last();
        assert(canonical_ranges(front)) by {
            assert forall|i: int| 0 <= i < front.len() implies #[trigger] front[i].start
                <= front[i].end && (front[i].orientation == '+' || front[i].orientation == '-') by {
                assert(front[i] == rs[i]);
            }
        }
        lemma_peel_rendered(h, front);
        let x = h + ranges_text(front);
        assert(rs.last() == rs[rs.len() - 1]);
        lemma_range_suffix(x, rs.last());
        let whole = x + range_text(rs.last());
        assert(h + ranges_text(rs) =~= whole);
        assert(front + seq![rs.last()] =~= rs);
        lemma_peel_step(whole, x, rs.last());
        assert(append_ranges(peel_canonical(x), seq![rs.last()]) == Ok::<Peeled, IdError>(
            Peeled { rest: h, ranges: front + seq![rs.last()], grammar: None },
        ));
    }
}

/// What canonical peeling leaves: a prefix of the text with no canonical suffix,
/// and ordered ranges with `+` or `-`.
proof fn lemma_peel_canonical_shape(s: Seq<char>)
    requires
        peel_canonical(s) is Ok,
    ensures
        !strict_tail(peel_canonical(s)->Ok_0.rest),
        peel_canonical(s)->Ok_0.grammar is None,
        peel_canonical(s)->Ok_0.rest.len() <= s.len(),
        peel_canonical(s)->Ok_0.rest == s.subrange(0, peel_canonical(s)->Ok_0.rest.len() as int),
        canonical_ranges(peel_canonical(s)->Ok_0.ranges),
    decreases s.len(),
{
    if strict_tail(s) {
        let x = tail_prefix(s);
        lemma_peel_canonical_shape(x);
        let p = peel_canonical(x)->Ok_0;
        let r = legacy_range(s, false)->Ok_0;
        assert(p.rest =~= s.subrange(0, p.rest.len() as int));
        let rs = p.ranges.push(r);
        assert(peel_canonical(s)->Ok_0.ranges =~= rs);
        assert forall|i: int| 0 <= i < rs.len() implies #[trigger] rs[i].start <= rs[i].end && (
        rs[i].orientation == '+' || rs[i].orientation == '-') by {
            if i < p.ranges.len() {
                assert(rs[i] == p.ranges[i]);
            }
        }
    } else {
        assert(s.subrange(0, s.len() as int) =~= s);
    }
}

/// A head that splits is the text of its parts.
proof fn lemma_head_text(s: Seq<char>)
    requires
        head_parts(s) is Some,
    ensures
        match head_parts(s) {
            Some((a, q)) => head_text(a, q) == s,
            None => true,
        },
{
    if !colon_free(s) {
        let i = choose|i: int| 0 <= i < s.len() && s[i] == ':';
        assert(s.subrange(0, i) + seq![':'] + s.subrange(i + 1, s.len() as int) =~= s);
    }
}

proof fn lemma_clean_concat(a: Seq<char>, b: Seq<char>)
    requires
        !has_rejected(a),
        !has_rejected(b),
    ensures
        !has_rejected(a + b),
{
    assert forall|i: int| 0 <= i < (a + b).len() implies !is_rejected_char(#[trigger] (a + b)[i]) by {
        if i < a.len() {
            assert((a + b)[i] == a[i]);
        } else {
            assert((a + b)[i] == b[i - a.len()]);
        }
    }
}

proof fn lemma_ranges_text_clean(rs: Seq<Range>)
    requires
        canonical_ranges(rs),
    ensures
        !has_rejected(ranges_text(rs)),
    decreases rs.len(),
{
    if rs.len() > 0 {
        let front = rs.drop_last();
        let r = rs.last();
        assert(r == rs[rs.len() - 1]);
        assert(canonical_ranges(front)) by {
            assert forall|i: int| 0 <= i < front.len() implies #[trigger] front[i].start
                <= front[i].end && (front[i].orientation == '+' || front[i].orientation == '-') by {
                assert(front[i] == rs[i]);
            }
        }
        lemma_ranges_text_clean(front);
        lemma_decimal(r.start as nat);
        lemma_decimal(r.end as nat);
        let t = range_text(r);
        assert forall|i: int| 0 <= i < t.len() implies !is_rejected_char(#[trigger] t[i]) by {
            let d1 = decimal(r.start as nat);
            let d2 = decimal(r.end as nat);
            assert(t =~= seq![':'] + d1 + seq!['-'] + d2 + seq!['_', r.orientation]);
            if 1 <= i < 1 + d1.len() {
                assert(t[i] == d1[i - 1]);
            } else if 2 + d1.len() <= i < 2 + d1.len() + d2.len() {
                assert(t[i] == d2[i - 2 - d1.len()]);
            }
        }
        lemma_clean_concat(ranges_text(front), t);
    }
}

/// Rendering a parsed identifier and parsing the text again gives the same
/// identifier.
pub proof fn lemma_render_parse_round_trip(t: Seq<char>)
    requires
        parse_spec(t) is Ok,
    ensures
        parse_spec(render_spec(parse_spec(t)->Ok_0)) == parse_spec(t),
{
    let v = parse_spec(t)->Ok_0;
    let p = peel_canonical(t)->Ok_0;
    lemma_peel_canonical_shape(t);
    lemma_head_text(p.rest);
    let h = p.rest;
    assert(head_text(v.assembly, v.sequence) == h);
    lemma_peel_rendered(h, p.ranges);
    assert(!has_rejected(h)) by {
        assert forall|i: int| 0 <= i < h.len() implies !is_rejected_char(#[trigger] h[i]) by {
            assert(h[i] == t[i]);
        }
    }
    lemma_ranges_text_clean(p.ranges);
    lemma_clean_concat(h, ranges_text(p.ranges));
}

/// Text holding a line break, or any other whitespace or control character, is
/// rejected as malformed by every entry point, whatever else it holds.
pub proof fn lemma_rejected_char_is_malformed(t: Seq<char>, i: int, zbho: bool)
    requires
        0 <= i < t.len(),
        is_rejected_char(t[i]),
    ensures
        parse_spec(t) == Err::<IdView, IdError>(IdError::MalformedInput),
        unknown_spec(t, zbho) == Err::<(IdView, IDVersion), IdError>(IdError::MalformedInput),
        legacy_spec(t) == Err::<IdView, IdError>(IdError::MalformedInput),
{
    assert(has_rejected(t));
}

} // verus!
