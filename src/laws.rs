//! Properties that hold of the pipeline as a whole.

use vstd::prelude::*;
use crate::block::{
    block_of, block_prefix, block_span, body_of, is_sentinel, label, terminator,
};
use crate::entry::{
    entry_model, entry_texts, keeps, kept_lines, marker, report_texts, reportable, split_lines,
};
use crate::report::{package_report_of, package_views, run_of, PackageMetadata};
use crate::text::{contains_seq, is_ws, occurs_at, trim, trim_end, trim_start};

verus! {

/// Running the pipeline twice over the same packages, with the same metadata,
/// gives the same reports in the same order, or fails on the same package.
pub proof fn lemma_run_deterministic(
    a: Seq<PackageMetadata>,
    b: Seq<PackageMetadata>,
    include_installed: bool,
)
    requires
        package_views(a) == package_views(b),
    ensures
        run_of(package_views(a), include_installed) == run_of(
            package_views(b),
            include_installed,
        ),
{
}

/// Keeping everything leaves a sequence of entries as it is.
pub proof fn lemma_keep_all(es: Seq<(Seq<char>, bool)>)
    ensures
        reportable(es, true) == es,
    decreases es.len(),
{
    if es.len() > 0 {
        lemma_keep_all(es.drop_last());
        es.drop_last().lemma_filter_push(es.last(), keeps(true));
        assert(es.drop_last().push(es.last()) =~= es);
    } else {
        reveal(Seq::filter);
    }
}

/// Every entry reported without the installed ones is also reported with them.
pub proof fn lemma_filter_monotone(es: Seq<(Seq<char>, bool)>)
    ensures
        forall|e: (Seq<char>, bool)|
            reportable(es, false).contains(e) ==> #[trigger] reportable(es, true).contains(e),
{
    lemma_keep_all(es);
    assert forall|e: (Seq<char>, bool)| reportable(es, false).contains(e) implies #[trigger] reportable(
        es,
        true,
    ).contains(e) by {
        es.lemma_filter_contains_rev(keeps(false), e);
    }
}

/// The reported texts are the block's entry texts in block order, with
/// exactly the installed ones left out unless they are asked for.
pub proof fn lemma_report_order(body: Seq<char>, include_installed: bool)
    ensures
        report_texts(body, include_installed) == entry_texts(body).filter(
            |t: Seq<char>| include_installed || !contains_seq(t, marker()),
        ),
        report_texts(body, true) == entry_texts(body),
{
    lemma_map_filter_map(entry_texts(body), include_installed);
    lemma_map_filter_map(entry_texts(body), true);
    lemma_keep_all(entry_texts(body).map_values(|t: Seq<char>| entry_model(t)));
    assert(entry_texts(body).map_values(|t: Seq<char>| entry_model(t)).map_values(
        |e: (Seq<char>, bool)| e.0,
    ) =~= entry_texts(body));
}

/// Filtering the entries of texts and taking their texts back is filtering the
/// texts by the same policy.
proof fn lemma_map_filter_map(ts: Seq<Seq<char>>, inc: bool)
    ensures
        ts.map_values(|t: Seq<char>| entry_model(t)).filter(keeps(inc)).map_values(
            |e: (Seq<char>, bool)| e.0,
        ) == ts.filter(|t: Seq<char>| inc || !contains_seq(t, marker())),
    decreases ts.len(),
{
    let es = ts.map_values(|t: Seq<char>| entry_model(t));
    let p = |t: Seq<char>| inc || !contains_seq(t, marker());
    if ts.len() > 0 {
        let init = ts.drop_last();
        lemma_map_filter_map(init, inc);
        assert(es =~= init.map_values(|t: Seq<char>| entry_model(t)).push(entry_model(ts.last())));
        init.map_values(|t: Seq<char>| entry_model(t)).lemma_filter_push(
            entry_model(ts.last()),
            keeps(inc),
        );
        init.lemma_filter_push(ts.last(), p);
        assert(init.push(ts.last()) =~= ts);
        let f = init.map_values(|t: Seq<char>| entry_model(t)).filter(keeps(inc));
        assert(f.push(entry_model(ts.last())).map_values(|e: (Seq<char>, bool)| e.0)
            =~= f.map_values(|e: (Seq<char>, bool)| e.0).push(ts.last()));
    } else {
        reveal(Seq::filter);
        assert(es.filter(keeps(inc)).map_values(|e: (Seq<char>, bool)| e.0) =~= ts);
    }
}

/// A package whose block holds the sentinel has nothing reported, whatever
/// the options.
pub proof fn lemma_sentinel_reports_nothing(details: Seq<char>, include_installed: bool)
    requires
        block_of(details) is Ok,
        is_sentinel(body_of(block_of(details)->Ok_0)),
    ensures
        package_report_of(details, include_installed) == Ok::<Seq<Seq<char>>, crate::block::MetadataError>(
            Seq::<Seq<char>>::empty(),
        ),
{
}

/// The located block starts at the label's last occurrence, so it holds
/// nothing of the text before it, and ends where the terminating label
/// starts, holding no occurrence of that label.
pub proof fn lemma_block_boundaries(t: Seq<char>)
    requires
        block_span(t) is Ok,
    ensures
        ({
            let (i, j) = block_span(t)->Ok_0;
            &&& 0 <= i <= j <= t.len()
            &&& occurs_at(t, label(), i)
            &&& forall|k: int| i < k ==> !occurs_at(t, label(), k)
            &&& occurs_at(t, terminator(), j)
            &&& forall|k: int| !occurs_at(#[trigger] t.subrange(i, j), terminator(), k)
        }),
{
    let (i, j) = block_span(t)->Ok_0;
    crate::text::lemma_last_occ(t, label());
    crate::text::lemma_first_occ_from(t, terminator(), i);
    reveal_strlit("Required By");
    assert(terminator().len() > 0);
    assert forall|k: int| !occurs_at(#[trigger] t.subrange(i, j), terminator(), k) by {
        if occurs_at(t.subrange(i, j), terminator(), k) {
            assert(t.subrange(i + k, i + k + terminator().len()) =~= t.subrange(i, j).subrange(
                k,
                k + terminator().len(),
            ));
            assert(occurs_at(t, terminator(), i + k));
        }
    }
}

/// The positions `idx` are strictly increasing and lie in `0..n`.
pub open spec fn increasing_within(idx: Seq<int>, n: int) -> bool {
    &&& forall|k: int| 0 <= k < idx.len() ==> 0 <= #[trigger] idx[k] < n
    &&& forall|k: int, l: int| 0 <= k < l < idx.len() ==> #[trigger] idx[k] < #[trigger] idx[l]
}

/// The positions in `s` of the elements that `s.filter(p)` keeps.
proof fn filter_positions<A>(s: Seq<A>, p: spec_fn(A) -> bool) -> (idx: Seq<int>)
    ensures
        idx.len() == s.filter(p).len(),
        increasing_within(idx, s.len() as int),
        forall|k: int| 0 <= k < idx.len() ==> s.filter(p)[k] == s[#[trigger] idx[k]],
    decreases s.len(),
{
    if s.len() == 0 {
        reveal(Seq::filter);
        Seq::<int>::empty()
    } else {
        let init = s.drop_last();
        let i0 = filter_positions(init, p);
        init.lemma_filter_push(s.last(), p);
        assert(init.push(s.last()) =~= s);
        if p(s.last()) {
            let idx = i0.push(s.len() - 1);
            assert forall|k: int| 0 <= k < idx.len() implies s.filter(p)[k] == s[#[trigger] idx[k]] by {
                if k < i0.len() {
                    assert(s[i0[k]] == init[i0[k]]);
                }
            }
            idx
        } else {
            assert forall|k: int| 0 <= k < i0.len() implies s.filter(p)[k] == s[#[trigger] i0[k]] by {
                assert(s[i0[k]] == init[i0[k]]);
            }
            i0
        }
    }
}

/// The positions in `ls` of the lines that `kept_lines(ls)` keeps.
proof fn kept_positions(ls: Seq<Seq<char>>) -> (idx: Seq<int>)
    ensures
        idx.len() == kept_lines(ls).len(),
        increasing_within(idx, ls.len() as int),
        forall|k: int| 0 <= k < idx.len() ==> kept_lines(ls)[k] == trim(ls[#[trigger] idx[k]]),
    decreases ls.len(),
{
    if ls.len() == 0 {
        Seq::<int>::empty()
    } else {
        let init = ls.drop_last();
        let i0 = kept_positions(init);
        if trim(ls.last()).len() > 0 {
            let idx = i0.push(ls.len() - 1);
            assert forall|k: int| 0 <= k < idx.len() implies kept_lines(ls)[k] == trim(
                ls[#[trigger] idx[k]],
            ) by {
                if k < i0.len() {
                    assert(ls[i0[k]] == init[i0[k]]);
                }
            }
            idx
        } else {
            assert forall|k: int| 0 <= k < i0.len() implies kept_lines(ls)[k] == trim(
                ls[#[trigger] i0[k]],
            ) by {
                assert(ls[i0[k]] == init[i0[k]]);
            }
            i0
        }
    }
}

/// The positions of the lines of `body` that the reported entries come from.
proof fn report_positions(body: Seq<char>, include_installed: bool) -> (idx: Seq<int>)
    ensures
        idx.len() == report_texts(body, include_installed).len(),
        increasing_within(idx, split_lines(body).len() as int),
        forall|k: int|
            0 <= k < idx.len() ==> report_texts(body, include_installed)[k] == trim(
                split_lines(body)[#[trigger] idx[k]],
            ),
{
    let p = |t: Seq<char>| include_installed || !contains_seq(t, marker());
    lemma_report_order(body, include_installed);
    let texts = entry_texts(body);
    let i1 = filter_positions(texts, p);
    let i2 = kept_positions(split_lines(body));
    let idx = Seq::new(i1.len(), |k: int| i2[i1[k]]);
    assert forall|k: int, l: int| 0 <= k < l < idx.len() implies #[trigger] idx[k]
        < #[trigger] idx[l] by {
        assert(i1[k] < i1[l]);
    }
    assert forall|k: int| 0 <= k < idx.len() implies report_texts(body, include_installed)[k]
        == trim(split_lines(body)[#[trigger] idx[k]]) by {
        assert(texts.filter(p)[k] == texts[i1[k]]);
    }
    idx
}

/// Each reported entry is a trimmed line of the block's body, and the
/// entries come from strictly increasing lines: the block's order is kept.
pub proof fn lemma_report_positions(body: Seq<char>, include_installed: bool)
    ensures
        exists|idx: Seq<int>|
            {
                &&& idx.len() == report_texts(body, include_installed).len()
                &&& increasing_within(idx, split_lines(body).len() as int)
                &&& forall|k: int|
                    0 <= k < idx.len() ==> report_texts(body, include_installed)[k] == trim(
                        split_lines(body)[#[trigger] idx[k]],
                    )
            },
{
    let idx = report_positions(body, include_installed);
}

/// Where `trim_start(s)` starts in `s`.
proof fn trim_start_span(s: Seq<char>) -> (a: int)
    ensures
        0 <= a <= s.len(),
        trim_start(s) == s.subrange(a, s.len() as int),
    decreases s.len(),
{
    if s.len() > 0 && is_ws(s[0]) {
        let a = trim_start_span(s.drop_first());
        assert(s.drop_first().subrange(a, s.len() - 1) =~= s.subrange(a + 1, s.len() as int));
        a + 1
    } else {
        assert(s.subrange(0, s.len() as int) =~= s);
        0
    }
}

/// Where `trim_end(s)` ends in `s`.
proof fn trim_end_span(s: Seq<char>) -> (b: int)
    ensures
        0 <= b <= s.len(),
        trim_end(s) == s.subrange(0, b),
    decreases s.len(),
{
    if s.len() > 0 && is_ws(s.last()) {
        let b = trim_end_span(s.drop_last());
        assert(s.drop_last().subrange(0, b) =~= s.subrange(0, b));
        b
    } else {
        assert(s.subrange(0, s.len() as int) =~= s);
        s.len() as int
    }
}

/// The spans in `s` of its lines; the last line runs to the end of `s`.
proof fn line_spans(s: Seq<char>) -> (sp: Seq<(int, int)>)
    ensures
        sp.len() == split_lines(s).len(),
        sp.len() >= 1,
        sp.last().1 == s.len(),
        forall|k: int|
            0 <= k < sp.len() ==> 0 <= (#[trigger] sp[k]).0 <= sp[k].1 <= s.len()
                && split_lines(s)[k] == s.subrange(sp[k].0, sp[k].1),
    decreases s.len(),
{
    if s.len() == 0 {
        let sp = seq![(0int, 0int)];
        assert(split_lines(s)[0] =~= s.subrange(0, 0));
        sp
    } else {
        let init = s.drop_last();
        let p = split_lines(init);
        let sp0 = line_spans(init);
        assert forall|k: int| 0 <= k < sp0.len() implies init.subrange(sp0[k].0, sp0[k].1)
            =~= s.subrange(#[trigger] sp0[k].0, sp0[k].1) by {}
        if s.last() == '\n' {
            let sp = sp0.push((s.len() as int, s.len() as int));
            assert(s.subrange(s.len() as int, s.len() as int) =~= Seq::<char>::empty());
            assert forall|k: int| 0 <= k < sp.len() implies 0 <= (#[trigger] sp[k]).0 <= sp[k].1
                <= s.len() && split_lines(s)[k] == s.subrange(sp[k].0, sp[k].1) by {
                if k < sp0.len() {
                    assert(sp[k] == sp0[k]);
                }
            }
            sp
        } else {
            let last = sp0.last();
            let sp = sp0.update(sp0.len() - 1, (last.0, s.len() as int));
            assert(p.last().push(s.last()) =~= s.subrange(last.0, s.len() as int));
            assert forall|k: int| 0 <= k < sp.len() implies 0 <= (#[trigger] sp[k]).0 <= sp[k].1
                <= s.len() && split_lines(s)[k] == s.subrange(sp[k].0, sp[k].1) by {
                if k < sp0.len() - 1 {
                    assert(sp[k] == sp0[k]);
                }
            }
            sp
        }
    }
}

/// Every entry reported for a package is a piece of its located block: it
/// holds nothing before the label's last occurrence, nothing of the
/// terminating label and nothing after it.
pub proof fn lemma_reported_within_block(t: Seq<char>, include_installed: bool)
    requires
        block_span(t) is Ok,
    ensures
        ({
            let (i, j) = block_span(t)->Ok_0;
            let r = package_report_of(t, include_installed)->Ok_0;
            forall|k: int|
                0 <= k < r.len() ==> exists|a: int, b: int|
                    i <= a <= b <= j && #[trigger] r[k] == t.subrange(a, b)
        }),
{
    let (i, j) = block_span(t)->Ok_0;
    let block = t.subrange(i, j);
    let body = body_of(block);
    let r = package_report_of(t, include_installed)->Ok_0;
    crate::text::lemma_first_occ_from(t, terminator(), i);
    let c: int = if body == block {
        0
    } else {
        block_prefix().len() as int
    };
    assert(body =~= block.subrange(c, block.len() as int));
    if !is_sentinel(body) {
        let idx = report_positions(body, include_installed);
        let sp = line_spans(body);
        assert forall|k: int| 0 <= k < r.len() implies exists|a: int, b: int|
            i <= a <= b <= j && #[trigger] r[k] == t.subrange(a, b) by {
            let line = split_lines(body)[idx[k]];
            let (la, lb) = sp[idx[k]];
            let x = trim_start_span(line);
            let y = trim_end_span(trim_start(line));
            let a = i + c + la + x;
            let b = i + c + la + x + y;
            assert(r[k] =~= t.subrange(a, b));
        }
    }
}

} // verus!
