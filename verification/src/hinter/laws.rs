//! What hint assignment guarantees over all panes.
use vstd::prelude::*;
use crate::table::{assoc_find, assoc_get, assoc_put, lemma_assoc_find_props, lemma_get_put, lemma_put_entries};
use crate::hint::huffman::prefix_free;
use super::{Hinter, TargetView};
use super::assign::{AssignState, assign_all, assign_line, assign_pane, assign_step, choose_hint, too_wide};
use super::scan::PreView;

verus! {

proof fn lemma_step_targets(
    st: AssignState,
    m: PreView,
    li: usize,
    pane_id: Seq<char>,
    line: Seq<char>,
    reuse: bool,
)
    ensures
        forall|x: Seq<char>|
            assoc_get(st.2, x) is Some ==> (#[trigger] assoc_get(
                assign_step(st, m, li, pane_id, line, reuse).0.2,
                x,
            )) is Some,
        assign_step(st, m, li, pane_id, line, reuse).1.3 is Some ==> assoc_get(
            assign_step(st, m, li, pane_id, line, reuse).0.2,
            assign_step(st, m, li, pane_id, line, reuse).1.3->0,
        ) is Some,
{
    let r = assign_step(st, m, li, pane_id, line, reuse);
    let hint = choose_hint(st, m.2, reuse).1;
    if r.1.3 is Some {
        assert forall|x: Seq<char>| assoc_get(st.2, x) is Some implies (#[trigger] assoc_get(
            r.0.2,
            x,
        )) is Some by {
            let col = m.0 + match m.3 {
                Some(o) => o.0 as int,
                None => 0,
            };
            lemma_get_put(st.2, hint, (m.2, (li, col as usize), pane_id), x);
        }
        let col = m.0 + match m.3 {
            Some(o) => o.0 as int,
            None => 0,
        };
        lemma_get_put(st.2, hint, (m.2, (li, col as usize), pane_id), hint);
    }
}

proof fn lemma_line_targets(
    st: AssignState,
    ms: Seq<PreView>,
    li: usize,
    pane_id: Seq<char>,
    line: Seq<char>,
    reuse: bool,
)
    ensures
        assign_line(st, ms, li, pane_id, line, reuse).1.len() == ms.len(),
        forall|x: Seq<char>|
            assoc_get(st.2, x) is Some ==> (#[trigger] assoc_get(
                assign_line(st, ms, li, pane_id, line, reuse).0.2,
                x,
            )) is Some,
        forall|k: int|
            0 <= k < ms.len() && (#[trigger] assign_line(st, ms, li, pane_id, line, reuse).1[k]).3 is Some
                ==> assoc_get(
                assign_line(st, ms, li, pane_id, line, reuse).0.2,
                assign_line(st, ms, li, pane_id, line, reuse).1[k].3->0,
            ) is Some,
    decreases ms.len(),
{
    if ms.len() > 0 {
        lemma_line_targets(st, ms.drop_last(), li, pane_id, line, reuse);
        let (s1, done) = assign_line(st, ms.drop_last(), li, pane_id, line, reuse);
        lemma_step_targets(s1, ms.last(), li, pane_id, line, reuse);
        let r = assign_line(st, ms, li, pane_id, line, reuse);
        assert forall|k: int| 0 <= k < ms.len() && (#[trigger] r.1[k]).3 is Some implies assoc_get(
            r.0.2,
            r.1[k].3->0,
        ) is Some by {
            if k < ms.len() - 1 {
                assert(r.1[k] == done[k]);
                assert(assoc_get(s1.2, done[k].3->0) is Some);
            }
        }
    }
}

proof fn lemma_pane_targets(
    st: AssignState,
    ms: Seq<Seq<PreView>>,
    pane_id: Seq<char>,
    lines: Seq<Seq<char>>,
    reuse: bool,
)
    ensures
        assign_pane(st, ms, pane_id, lines, reuse).1.len() == ms.len(),
        forall|l: int| 0 <= l < ms.len() ==> (#[trigger] assign_pane(st, ms, pane_id, lines, reuse).1[l]).len() == ms[l].len(),
        forall|x: Seq<char>|
            assoc_get(st.2, x) is Some ==> (#[trigger] assoc_get(
                assign_pane(st, ms, pane_id, lines, reuse).0.2,
                x,
            )) is Some,
        forall|l: int, k: int|
            0 <= l < ms.len() && 0 <= k < ms[l].len() && (#[trigger] assign_pane(
                st,
                ms,
                pane_id,
                lines,
                reuse,
            ).1[l][k]).3 is Some ==> assoc_get(
                assign_pane(st, ms, pane_id, lines, reuse).0.2,
                assign_pane(st, ms, pane_id, lines, reuse).1[l][k].3->0,
            ) is Some,
    decreases ms.len(),
{
    if ms.len() > 0 {
        let li = ms.len() - 1;
        lemma_pane_targets(st, ms.drop_last(), pane_id, lines, reuse);
        let (s1, done) = assign_pane(st, ms.drop_last(), pane_id, lines, reuse);
        lemma_line_targets(s1, ms.last(), li as usize, pane_id, lines[li], reuse);
        let r = assign_pane(st, ms, pane_id, lines, reuse);
        assert forall|l: int| 0 <= l < ms.len() implies (#[trigger] r.1[l]).len() == ms[l].len() by {
            if l < li {
                assert(r.1[l] == done[l]);
                assert(ms.drop_last()[l] == ms[l]);
            }
        }
        assert forall|l: int, k: int|
            0 <= l < ms.len() && 0 <= k < ms[l].len() && (#[trigger] r.1[l][k]).3 is Some implies assoc_get(
                r.0.2,
                r.1[l][k].3->0,
            ) is Some by {
            if l < li {
                assert(r.1[l] == done[l]);
                assert(ms.drop_last()[l] == ms[l]);
                assert(assoc_get(s1.2, done[l][k].3->0) is Some);
            }
        }
    }
}

proof fn lemma_all_targets(
    st: AssignState,
    all: Seq<Seq<Seq<PreView>>>,
    pane_ids: Seq<Seq<char>>,
    panes: Seq<Seq<Seq<char>>>,
    reuse: bool,
)
    ensures
        assign_all(st, all, pane_ids, panes, reuse).1.len() == all.len(),
        forall|p: int| 0 <= p < all.len() ==> (#[trigger] assign_all(st, all, pane_ids, panes, reuse).1[p]).len() == all[p].len(),
        forall|p: int, l: int|
            0 <= p < all.len() && 0 <= l < all[p].len() ==> (#[trigger] assign_all(
                st,
                all,
                pane_ids,
                panes,
                reuse,
            ).1[p][l]).len() == all[p][l].len(),
        forall|p: int, l: int, k: int|
            0 <= p < all.len() && 0 <= l < all[p].len() && 0 <= k < all[p][l].len() && (#[trigger] assign_all(
                st,
                all,
                pane_ids,
                panes,
                reuse,
            ).1[p][l][k]).3 is Some ==> assoc_get(
                assign_all(st, all, pane_ids, panes, reuse).0.2,
                assign_all(st, all, pane_ids, panes, reuse).1[p][l][k].3->0,
            ) is Some,
    decreases all.len(),
{
    if all.len() > 0 {
        let pi = all.len() - 1;
        lemma_all_targets(st, all.drop_last(), pane_ids, panes, reuse);
        let (s1, done) = assign_all(st, all.drop_last(), pane_ids, panes, reuse);
        lemma_pane_targets(s1, all.last(), pane_ids[pi], panes[pi], reuse);
        let r = assign_all(st, all, pane_ids, panes, reuse);
        assert forall|p: int| 0 <= p < all.len() implies (#[trigger] r.1[p]).len() == all[p].len() by {
            if p < pi {
                assert(r.1[p] == done[p]);
                assert(all.drop_last()[p] == all[p]);
            }
        }
        assert forall|p: int, l: int| 0 <= p < all.len() && 0 <= l < all[p].len() implies (#[trigger] r.1[p][l]).len()
            == all[p][l].len() by {
            if p < pi {
                assert(r.1[p] == done[p]);
                assert(all.drop_last()[p] == all[p]);
            }
        }
        assert forall|p: int, l: int, k: int|
            0 <= p < all.len() && 0 <= l < all[p].len() && 0 <= k < all[p][l].len() && (#[trigger] r.1[p][l][k]).3 is Some implies assoc_get(
                r.0.2,
                r.1[p][l][k].3->0,
            ) is Some by {
            if p < pi {
                assert(r.1[p] == done[p]);
                assert(all.drop_last()[p] == all[p]);
                assert(assoc_get(s1.2, done[p][l][k].3->0) is Some);
            }
        }
    }
}

/// Law: every hint that is shown selects something.  Whatever pool the
/// hints come from, each match that is shown with a hint finds that hint
/// in the target table, so typing it picks a target.
pub proof fn law_shown_hints_select(h: Hinter, pool: Seq<Seq<char>>)
    ensures
        forall|p: int, l: int, k: int|
            0 <= p < h.found().len() && 0 <= l < h.found()[p].len() && 0 <= k < h.found()[p][l].len() && (
            #[trigger] h.assigned(pool).1[p][l][k]).3 is Some ==> assoc_get(
                h.assigned(pool).0.2,
                h.assigned(pool).1[p][l][k].3->0,
            ) is Some,
{
    lemma_all_targets(
        (pool, seq![], seq![]),
        h.found(),
        super::assign::pane_ids(h.pane_inputs@),
        h.lines_view(),
        h.reuse_hints,
    );
}


proof fn lemma_step_reuse(st: AssignState, m: PreView, li: usize, pane_id: Seq<char>, line: Seq<char>)
    ensures
        forall|x: Seq<char>|
            assoc_get(st.1, x) is Some ==> #[trigger] assoc_get(
                assign_step(st, m, li, pane_id, line, true).0.1,
                x,
            ) == assoc_get(st.1, x),
        assign_step(st, m, li, pane_id, line, true).1.3 is Some ==> assoc_get(
            assign_step(st, m, li, pane_id, line, true).0.1,
            m.2,
        ) == assign_step(st, m, li, pane_id, line, true).1.3,
{
    let r = assign_step(st, m, li, pane_id, line, true);
    let (popped, hint, pool) = choose_hint(st, m.2, true);
    crate::table::lemma_assoc_find_props(st.1, m.2);
    if popped && r.1.3 is Some {
        assert forall|x: Seq<char>| assoc_get(st.1, x) is Some implies #[trigger] assoc_get(r.0.1, x) == assoc_get(
            st.1,
            x,
        ) by {
            lemma_get_put(st.1, m.2, hint, x);
        }
        lemma_get_put(st.1, m.2, hint, m.2);
    }
}

proof fn lemma_line_reuse(st: AssignState, ms: Seq<PreView>, li: usize, pane_id: Seq<char>, line: Seq<char>)
    ensures
        assign_line(st, ms, li, pane_id, line, true).1.len() == ms.len(),
        forall|x: Seq<char>|
            assoc_get(st.1, x) is Some ==> #[trigger] assoc_get(
                assign_line(st, ms, li, pane_id, line, true).0.1,
                x,
            ) == assoc_get(st.1, x),
        forall|k: int|
            0 <= k < ms.len() && (#[trigger] assign_line(st, ms, li, pane_id, line, true).1[k]).3 is Some
                ==> assoc_get(assign_line(st, ms, li, pane_id, line, true).0.1, ms[k].2) == assign_line(
                st,
                ms,
                li,
                pane_id,
                line,
                true,
            ).1[k].3,
    decreases ms.len(),
{
    if ms.len() > 0 {
        lemma_line_reuse(st, ms.drop_last(), li, pane_id, line);
        let (s1, done) = assign_line(st, ms.drop_last(), li, pane_id, line, true);
        lemma_step_reuse(s1, ms.last(), li, pane_id, line);
        let r = assign_line(st, ms, li, pane_id, line, true);
        assert forall|k: int| 0 <= k < ms.len() && (#[trigger] r.1[k]).3 is Some implies assoc_get(r.0.1, ms[k].2)
            == r.1[k].3 by {
            if k < ms.len() - 1 {
                assert(r.1[k] == done[k]);
                assert(ms.drop_last()[k] == ms[k]);
                assert(assoc_get(s1.1, ms[k].2) == done[k].3);
            }
        }
    }
}

proof fn lemma_pane_reuse(st: AssignState, ms: Seq<Seq<PreView>>, pane_id: Seq<char>, lines: Seq<Seq<char>>)
    ensures
        assign_pane(st, ms, pane_id, lines, true).1.len() == ms.len(),
        forall|l: int| 0 <= l < ms.len() ==> (#[trigger] assign_pane(st, ms, pane_id, lines, true).1[l]).len() == ms[l].len(),
        forall|x: Seq<char>|
            assoc_get(st.1, x) is Some ==> #[trigger] assoc_get(
                assign_pane(st, ms, pane_id, lines, true).0.1,
                x,
            ) == assoc_get(st.1, x),
        forall|l: int, k: int|
            0 <= l < ms.len() && 0 <= k < ms[l].len() && (#[trigger] assign_pane(
                st,
                ms,
                pane_id,
                lines,
                true,
            ).1[l][k]).3 is Some ==> assoc_get(assign_pane(st, ms, pane_id, lines, true).0.1, ms[l][k].2)
                == assign_pane(st, ms, pane_id, lines, true).1[l][k].3,
    decreases ms.len(),
{
    if ms.len() > 0 {
        let li = ms.len() - 1;
        lemma_pane_reuse(st, ms.drop_last(), pane_id, lines);
        let (s1, done) = assign_pane(st, ms.drop_last(), pane_id, lines, true);
        lemma_line_reuse(s1, ms.last(), li as usize, pane_id, lines[li]);
        let r = assign_pane(st, ms, pane_id, lines, true);
        assert forall|l: int| 0 <= l < ms.len() implies (#[trigger] r.1[l]).len() == ms[l].len() by {
            if l < li {
                assert(r.1[l] == done[l]);
                assert(ms.drop_last()[l] == ms[l]);
            }
        }
        assert forall|l: int, k: int|
            0 <= l < ms.len() && 0 <= k < ms[l].len() && (#[trigger] r.1[l][k]).3 is Some implies assoc_get(
                r.0.1,
                ms[l][k].2,
            ) == r.1[l][k].3 by {
            if l < li {
                assert(r.1[l] == done[l]);
                assert(ms.drop_last()[l] == ms[l]);
                assert(assoc_get(s1.1, ms[l][k].2) == done[l][k].3);
            }
        }
    }
}

proof fn lemma_all_reuse(
    st: AssignState,
    all: Seq<Seq<Seq<PreView>>>,
    pane_ids: Seq<Seq<char>>,
    panes: Seq<Seq<Seq<char>>>,
)
    ensures
        forall|p: int, l: int, k: int|
            0 <= p < all.len() && 0 <= l < all[p].len() && 0 <= k < all[p][l].len() && (#[trigger] assign_all(
                st,
                all,
                pane_ids,
                panes,
                true,
            ).1[p][l][k]).3 is Some ==> assoc_get(assign_all(st, all, pane_ids, panes, true).0.1, all[p][l][k].2)
                == assign_all(st, all, pane_ids, panes, true).1[p][l][k].3,
    decreases all.len(),
{
    if all.len() > 0 {
        let pi = all.len() - 1;
        lemma_all_reuse(st, all.drop_last(), pane_ids, panes);
        lemma_all_targets(st, all.drop_last(), pane_ids, panes, true);
        let (s1, done) = assign_all(st, all.drop_last(), pane_ids, panes, true);
        lemma_pane_reuse(s1, all.last(), pane_ids[pi], panes[pi]);
        let r = assign_all(st, all, pane_ids, panes, true);
        assert forall|p: int, l: int, k: int|
            0 <= p < all.len() && 0 <= l < all[p].len() && 0 <= k < all[p][l].len() && (#[trigger] r.1[p][l][k]).3 is Some implies assoc_get(
                r.0.1,
                all[p][l][k].2,
            ) == r.1[p][l][k].3 by {
            if p < pi {
                assert(r.1[p] == done[p]);
                assert(all.drop_last()[p] == all[p]);
                assert(assoc_get(s1.1, all[p][l][k].2) == done[p][l][k].3);
            }
        }
    }
}

/// Law: when hints are reused (every mode but jump), matches with the same
/// text that are shown with a hint are shown with the same hint, in every
/// pane.
pub proof fn law_equal_texts_share_hints(h: Hinter, pool: Seq<Seq<char>>)
    requires
        h.reuse_hints,
    ensures
        forall|p: int, l: int, k: int, q: int, m: int, j: int|
            0 <= p < h.found().len() && 0 <= l < h.found()[p].len() && 0 <= k < h.found()[p][l].len() && 0 <= q
                < h.found().len() && 0 <= m < h.found()[q].len() && 0 <= j < h.found()[q][m].len()
                && h.found()[p][l][k].2 == h.found()[q][m][j].2 && (#[trigger] h.assigned(pool).1[p][l][k]).3 is Some
                && (#[trigger] h.assigned(pool).1[q][m][j]).3 is Some ==> h.assigned(pool).1[p][l][k].3
                == h.assigned(pool).1[q][m][j].3,
{
    lemma_all_reuse(
        (pool, seq![], seq![]),
        h.found(),
        super::assign::pane_ids(h.pane_inputs@),
        h.lines_view(),
    );
}


proof fn lemma_step_fresh(st: AssignState, m: PreView, li: usize, pane_id: Seq<char>, line: Seq<char>)
    requires
        st.0.no_duplicates(),
        st.0.len() >= 1,
    ensures
        assign_step(st, m, li, pane_id, line, false).0.0.no_duplicates(),
        assign_step(st, m, li, pane_id, line, false).0.0.len() >= st.0.len() - 1,
        forall|x: Seq<char>|
            #[trigger] assign_step(st, m, li, pane_id, line, false).0.0.contains(x) ==> st.0.contains(x),
        assign_step(st, m, li, pane_id, line, false).1.3 is Some ==> st.0.contains(
            assign_step(st, m, li, pane_id, line, false).1.3->0,
        ) && !assign_step(st, m, li, pane_id, line, false).0.0.contains(
            assign_step(st, m, li, pane_id, line, false).1.3->0,
        ),
{
    let r = assign_step(st, m, li, pane_id, line, false);
    let h = st.0.last();
    assert(st.0.contains(h));
    assert forall|x: Seq<char>| #[trigger] st.0.drop_last().contains(x) implies st.0.contains(x) by {
        let i = choose|i: int| 0 <= i < st.0.drop_last().len() && st.0.drop_last()[i] == x;
        assert(st.0[i] == x);
    }
    if st.0.drop_last().contains(h) {
        let i = choose|i: int| 0 <= i < st.0.drop_last().len() && st.0.drop_last()[i] == h;
        assert(st.0[i] == st.0[st.0.len() - 1]);
    }
    assert(st.0.drop_last().push(h) =~= st.0);
}

proof fn lemma_line_fresh(st: AssignState, ms: Seq<PreView>, li: usize, pane_id: Seq<char>, line: Seq<char>)
    requires
        st.0.no_duplicates(),
        st.0.len() >= ms.len(),
    ensures
        ({
            let r = assign_line(st, ms, li, pane_id, line, false);
            &&& r.1.len() == ms.len()
            &&& r.0.0.no_duplicates()
            &&& r.0.0.len() >= st.0.len() - ms.len()
            &&& forall|x: Seq<char>| #[trigger] r.0.0.contains(x) ==> st.0.contains(x)
            &&& forall|k: int|
                0 <= k < ms.len() && (#[trigger] r.1[k]).3 is Some ==> st.0.contains(r.1[k].3->0)
                    && !r.0.0.contains(r.1[k].3->0)
            &&& forall|k: int, j: int|
                0 <= k < ms.len() && 0 <= j < ms.len() && k != j && (#[trigger] r.1[k]).3 is Some && (
                #[trigger] r.1[j]).3 is Some ==> r.1[k].3 != r.1[j].3
        }),
    decreases ms.len(),
{
    if ms.len() > 0 {
        lemma_line_fresh(st, ms.drop_last(), li, pane_id, line);
        let (s1, done) = assign_line(st, ms.drop_last(), li, pane_id, line, false);
        lemma_step_fresh(s1, ms.last(), li, pane_id, line);
        let r = assign_line(st, ms, li, pane_id, line, false);
        let n = ms.len() - 1;
        assert forall|k: int| 0 <= k < ms.len() && (#[trigger] r.1[k]).3 is Some implies st.0.contains(r.1[k].3->0)
            && !r.0.0.contains(r.1[k].3->0) by {
            if k < n {
                assert(r.1[k] == done[k]);
            }
        }
        assert forall|k: int, j: int|
            0 <= k < ms.len() && 0 <= j < ms.len() && k != j && (#[trigger] r.1[k]).3 is Some && (
            #[trigger] r.1[j]).3 is Some implies r.1[k].3 != r.1[j].3 by {
            if k < n && j < n {
                assert(r.1[k] == done[k]);
                assert(r.1[j] == done[j]);
            } else if k < n {
                assert(r.1[k] == done[k]);
            } else {
                assert(r.1[j] == done[j]);
            }
        }
    }
}

/// The number of matches over some lines.
pub open spec fn match_total(ms: Seq<Seq<PreView>>) -> int
    decreases ms.len(),
{
    if ms.len() == 0 {
        0
    } else {
        match_total(ms.drop_last()) + ms.last().len()
    }
}

/// The number of matches over some panes.
pub open spec fn all_total(all: Seq<Seq<Seq<PreView>>>) -> int
    decreases all.len(),
{
    if all.len() == 0 {
        0
    } else {
        all_total(all.drop_last()) + match_total(all.last())
    }
}

proof fn lemma_pane_fresh(st: AssignState, ms: Seq<Seq<PreView>>, pane_id: Seq<char>, lines: Seq<Seq<char>>)
    requires
        st.0.no_duplicates(),
        st.0.len() >= match_total(ms),
    ensures
        ({
            let r = assign_pane(st, ms, pane_id, lines, false);
            &&& r.1.len() == ms.len()
            &&& forall|l: int| 0 <= l < ms.len() ==> (#[trigger] r.1[l]).len() == ms[l].len()
            &&& r.0.0.no_duplicates()
            &&& r.0.0.len() >= st.0.len() - match_total(ms)
            &&& forall|x: Seq<char>| #[trigger] r.0.0.contains(x) ==> st.0.contains(x)
            &&& forall|l: int, k: int|
                0 <= l < ms.len() && 0 <= k < ms[l].len() && (#[trigger] r.1[l][k]).3 is Some ==> st.0.contains(
                    r.1[l][k].3->0,
                ) && !r.0.0.contains(r.1[l][k].3->0)
            &&& forall|l: int, k: int, m: int, j: int|
                0 <= l < ms.len() && 0 <= k < ms[l].len() && 0 <= m < ms.len() && 0 <= j < ms[m].len() && (l, k)
                    != (m, j) && (#[trigger] r.1[l][k]).3 is Some && (#[trigger] r.1[m][j]).3 is Some
                    ==> r.1[l][k].3 != r.1[m][j].3
        }),
    decreases ms.len(),
{
    if ms.len() > 0 {
        let li = ms.len() - 1;
        assert(match_total(ms.drop_last()) >= 0) by {
            lemma_total_nonneg(ms.drop_last());
        }
        lemma_pane_fresh(st, ms.drop_last(), pane_id, lines);
        let (s1, done) = assign_pane(st, ms.drop_last(), pane_id, lines, false);
        lemma_line_fresh(s1, ms.last(), li as usize, pane_id, lines[li]);
        let r = assign_pane(st, ms, pane_id, lines, false);
        assert forall|l: int| 0 <= l < ms.len() implies (#[trigger] r.1[l]).len() == ms[l].len() by {
            if l < li {
                assert(r.1[l] == done[l]);
                assert(ms.drop_last()[l] == ms[l]);
            }
        }
        assert forall|l: int, k: int|
            0 <= l < ms.len() && 0 <= k < ms[l].len() && (#[trigger] r.1[l][k]).3 is Some implies st.0.contains(
                r.1[l][k].3->0,
            ) && !r.0.0.contains(r.1[l][k].3->0) by {
            if l < li {
                assert(r.1[l] == done[l]);
                assert(ms.drop_last()[l] == ms[l]);
            }
        }
        assert forall|l: int, k: int, m: int, j: int|
            0 <= l < ms.len() && 0 <= k < ms[l].len() && 0 <= m < ms.len() && 0 <= j < ms[m].len() && (l, k) != (
            m,
            j,
        ) && (#[trigger] r.1[l][k]).3 is Some && (#[trigger] r.1[m][j]).3 is Some implies r.1[l][k].3
            != r.1[m][j].3 by {
            if l < li {
                assert(r.1[l] == done[l]);
                assert(ms.drop_last()[l] == ms[l]);
            }
            if m < li {
                assert(r.1[m] == done[m]);
                assert(ms.drop_last()[m] == ms[m]);
            }
            if l == li && m == li {
                assert(k != j);
            }
        }
    }
}

proof fn lemma_total_nonneg(ms: Seq<Seq<PreView>>)
    ensures
        match_total(ms) >= 0,
    decreases ms.len(),
{
    if ms.len() > 0 {
        lemma_total_nonneg(ms.drop_last());
    }
}

proof fn lemma_all_total_nonneg(all: Seq<Seq<Seq<PreView>>>)
    ensures
        all_total(all) >= 0,
    decreases all.len(),
{
    if all.len() > 0 {
        lemma_all_total_nonneg(all.drop_last());
        lemma_total_nonneg(all.last());
    }
}

proof fn lemma_all_fresh(
    st: AssignState,
    all: Seq<Seq<Seq<PreView>>>,
    pane_ids: Seq<Seq<char>>,
    panes: Seq<Seq<Seq<char>>>,
)
    requires
        st.0.no_duplicates(),
        st.0.len() >= all_total(all),
    ensures
        ({
            let r = assign_all(st, all, pane_ids, panes, false);
            &&& r.1.len() == all.len()
            &&& forall|p: int| 0 <= p < all.len() ==> (#[trigger] r.1[p]).len() == all[p].len()
            &&& forall|p: int, l: int|
                0 <= p < all.len() && 0 <= l < all[p].len() ==> (#[trigger] r.1[p][l]).len() == all[p][l].len()
            &&& r.0.0.no_duplicates()
            &&& r.0.0.len() >= st.0.len() - all_total(all)
            &&& forall|x: Seq<char>| #[trigger] r.0.0.contains(x) ==> st.0.contains(x)
            &&& forall|p: int, l: int, k: int|
                0 <= p < all.len() && 0 <= l < all[p].len() && 0 <= k < all[p][l].len() && (
                #[trigger] r.1[p][l][k]).3 is Some ==> !r.0.0.contains(r.1[p][l][k].3->0) && st.0.contains(
                    r.1[p][l][k].3->0,
                )
            &&& forall|p: int, l: int, k: int, q: int, m: int, j: int|
                0 <= p < all.len() && 0 <= l < all[p].len() && 0 <= k < all[p][l].len() && 0 <= q < all.len() && 0
                    <= m < all[q].len() && 0 <= j < all[q][m].len() && (p, l, k) != (q, m, j) && (
                #[trigger] r.1[p][l][k]).3 is Some && (#[trigger] r.1[q][m][j]).3 is Some ==> r.1[p][l][k].3
                    != r.1[q][m][j].3
        }),
    decreases all.len(),
{
    if all.len() > 0 {
        let pi = all.len() - 1;
        lemma_all_total_nonneg(all.drop_last());
        lemma_total_nonneg(all.last());
        lemma_all_fresh(st, all.drop_last(), pane_ids, panes);
        let (s1, done) = assign_all(st, all.drop_last(), pane_ids, panes, false);
        lemma_pane_fresh(s1, all.last(), pane_ids[pi], panes[pi]);
        let r = assign_all(st, all, pane_ids, panes, false);
        assert forall|p: int| 0 <= p < all.len() implies (#[trigger] r.1[p]).len() == all[p].len() by {
            if p < pi {
                assert(r.1[p] == done[p]);
                assert(all.drop_last()[p] == all[p]);
            }
        }
        assert forall|p: int, l: int| 0 <= p < all.len() && 0 <= l < all[p].len() implies (#[trigger] r.1[p][l]).len()
            == all[p][l].len() by {
            if p < pi {
                assert(r.1[p] == done[p]);
                assert(all.drop_last()[p] == all[p]);
            }
        }
        assert forall|p: int, l: int, k: int|
            0 <= p < all.len() && 0 <= l < all[p].len() && 0 <= k < all[p][l].len() && (#[trigger] r.1[p][l][k]).3 is Some implies !r.0.0.contains(
                r.1[p][l][k].3->0,
            ) && st.0.contains(r.1[p][l][k].3->0) by {
            if p < pi {
                assert(r.1[p] == done[p]);
                assert(all.drop_last()[p] == all[p]);
            }
        }
        assert forall|p: int, l: int, k: int, q: int, m: int, j: int|
            0 <= p < all.len() && 0 <= l < all[p].len() && 0 <= k < all[p][l].len() && 0 <= q < all.len() && 0 <= m
                < all[q].len() && 0 <= j < all[q][m].len() && (p, l, k) != (q, m, j) && (
            #[trigger] r.1[p][l][k]).3 is Some && (#[trigger] r.1[q][m][j]).3 is Some implies r.1[p][l][k].3
                != r.1[q][m][j].3 by {
            if p < pi {
                assert(r.1[p] == done[p]);
                assert(all.drop_last()[p] == all[p]);
            }
            if q < pi {
                assert(r.1[q] == done[q]);
                assert(all.drop_last()[q] == all[q]);
            }
            if p == pi && q == pi {
                assert((l, k) != (m, j));
            }
        }
    }
}

/// Law: in jump mode (no reuse) every match gets its own hint.  When the
/// pool holds no hint twice and at least one hint per match, no two
/// matches, anywhere in the panes, are shown with the same hint.
pub proof fn law_jump_hints_distinct(h: Hinter, pool: Seq<Seq<char>>)
    requires
        !h.reuse_hints,
        pool.no_duplicates(),
        pool.len() >= all_total(h.found()),
    ensures
        forall|p: int, l: int, k: int, q: int, m: int, j: int|
            0 <= p < h.found().len() && 0 <= l < h.found()[p].len() && 0 <= k < h.found()[p][l].len() && 0 <= q
                < h.found().len() && 0 <= m < h.found()[q].len() && 0 <= j < h.found()[q][m].len() && (p, l, k) != (
            q,
            m,
            j,
        ) && (#[trigger] h.assigned(pool).1[p][l][k]).3 is Some && (#[trigger] h.assigned(pool).1[q][m][j]).3 is Some
                ==> h.assigned(pool).1[p][l][k].3 != h.assigned(pool).1[q][m][j].3,
{
    lemma_all_fresh(
        (pool, seq![], seq![]),
        h.found(),
        super::assign::pane_ids(h.pane_inputs@),
        h.lines_view(),
    );
}


proof fn lemma_pane_texts_len(lines: Seq<Seq<PreView>>)
    ensures
        super::assign::pane_texts(lines).len() == match_total(lines),
    decreases lines.len(),
{
    if lines.len() > 0 {
        lemma_pane_texts_len(lines.drop_last());
    }
}

proof fn lemma_all_texts_len(all: Seq<Seq<Seq<PreView>>>)
    ensures
        super::assign::all_texts(all).len() == all_total(all),
    decreases all.len(),
{
    if all.len() > 0 {
        lemma_all_texts_len(all.drop_last());
        lemma_pane_texts_len(all.last());
    }
}

/// Law: in jump mode, with an alphabet of distinct single letters that can
/// spell the hints needed, the generated pool gives every match its own
/// hint: no two matches are shown with the same hint.
pub proof fn law_generated_jump_hints_distinct(h: Hinter)
    requires
        !h.reuse_hints,
        crate::hint::huffman::distinct_letters(crate::text::string_views(h.alphabet@)),
        h.alphabet@.len() > 0,
        !(h.alphabet@.len() == 1 && h.needed() > 1),
        h.needed() <= usize::MAX / 4,
    ensures
        forall|p: int, l: int, k: int, q: int, m: int, j: int|
            0 <= p < h.found().len() && 0 <= l < h.found()[p].len() && 0 <= k < h.found()[p][l].len() && 0 <= q
                < h.found().len() && 0 <= m < h.found()[q].len() && 0 <= j < h.found()[q][m].len() && (p, l, k) != (
            q,
            m,
            j,
        ) && (#[trigger] h.assigned(
            super::pool_for(crate::text::string_views(h.alphabet@), h.needed()),
        ).1[p][l][k]).3 is Some && (#[trigger] h.assigned(
            super::pool_for(crate::text::string_views(h.alphabet@), h.needed()),
        ).1[q][m][j]).3 is Some ==> h.assigned(
            super::pool_for(crate::text::string_views(h.alphabet@), h.needed()),
        ).1[p][l][k].3 != h.assigned(super::pool_for(crate::text::string_views(h.alphabet@), h.needed())).1[q][m][j].3,
{
    let alph = crate::text::string_views(h.alphabet@);
    let n = h.needed();
    let pool = super::pool_for(alph, n);
    crate::hint::huffman::law_hint_count(alph, n);
    crate::hint::huffman::law_hints_prefix_free(alph, n);
    assert(pool.no_duplicates()) by {
        assert forall|i: int, j: int| 0 <= i < pool.len() && 0 <= j < pool.len() && i != j implies pool[i]
            != pool[j] by {
            assert(!pool[i].is_prefix_of(pool[j]));
        }
    }
    lemma_all_texts_len(h.found());
    law_jump_hints_distinct(h, pool);
}


/// No hint in a target table is a proper prefix of another.
pub open spec fn prefix_free_table(targets: Seq<(Seq<char>, TargetView)>) -> bool {
    forall|i: int, j: int|
        0 <= i < targets.len() && 0 <= j < targets.len() && i != j ==> !((#[trigger] targets[i]).0.len()
            < (#[trigger] targets[j]).0.len() && targets[j].0.take(targets[i].0.len() as int) == targets[i].0)
}

/// A hint from the pool, or the `?` given when the pool runs out.
pub open spec fn from_pool(pool: Seq<Seq<char>>, x: Seq<char>) -> bool {
    pool.contains(x) || x == seq!['?']
}

/// Every hint left in, given to a text by, or keyed in the table of an
/// assignment state is from the pool.
pub open spec fn drawn_from(st: AssignState, pool: Seq<Seq<char>>) -> bool {
    &&& forall|i: int| 0 <= i < st.0.len() ==> from_pool(pool, #[trigger] st.0[i])
    &&& forall|i: int| 0 <= i < st.1.len() ==> from_pool(pool, (#[trigger] st.1[i]).1)
    &&& forall|i: int| 0 <= i < st.2.len() ==> from_pool(pool, (#[trigger] st.2[i]).0)
}

proof fn lemma_step_drawn(
    st: AssignState,
    m: PreView,
    li: usize,
    pane_id: Seq<char>,
    line: Seq<char>,
    reuse: bool,
    pool: Seq<Seq<char>>,
)
    requires
        drawn_from(st, pool),
    ensures
        drawn_from(assign_step(st, m, li, pane_id, line, reuse).0, pool),
{
    let (popped, hint, rest) = choose_hint(st, m.2, reuse);
    let i = assoc_find(st.1, m.2);
    lemma_assoc_find_props(st.1, m.2);
    if reuse && i >= 0 {
        assert(from_pool(pool, st.1[i].1));
    } else if st.0.len() > 0 {
        assert(from_pool(pool, st.0[st.0.len() - 1]));
        assert forall|k: int| 0 <= k < rest.len() implies from_pool(pool, #[trigger] rest[k]) by {
            assert(rest[k] == st.0[k]);
        }
    }
    assert(from_pool(pool, hint));
    let r = assign_step(st, m, li, pane_id, line, reuse).0;
    if too_wide(hint, m.2) {
        if popped {
            assert forall|k: int| 0 <= k < r.0.len() implies from_pool(pool, #[trigger] r.0[k]) by {
                if k < rest.len() {
                    assert(r.0[k] == rest[k]);
                }
            }
        }
    } else {
        let col = m.0 + match m.3 {
            Some(o) => o.0 as int,
            None => 0,
        };
        let target = (m.2, (li, col as usize), pane_id);
        lemma_put_drawn(st.2, hint, target, pool);
        if reuse && popped {
            lemma_put_drawn_texts(st.1, m.2, hint, pool);
        }
    }
}

proof fn lemma_put_drawn(l: Seq<(Seq<char>, TargetView)>, k: Seq<char>, v: TargetView, pool: Seq<Seq<char>>)
    requires
        forall|i: int| 0 <= i < l.len() ==> from_pool(pool, (#[trigger] l[i]).0),
        from_pool(pool, k),
    ensures
        forall|i: int| 0 <= i < assoc_put(l, k, v).len() ==> from_pool(pool, (#[trigger] assoc_put(l, k, v)[i]).0),
{
    let r = assoc_put(l, k, v);
    let f = assoc_find(l, k);
    lemma_assoc_find_props(l, k);
    assert forall|i: int| 0 <= i < r.len() implies from_pool(pool, (#[trigger] r[i]).0) by {
        if f >= 0 {
            if i != f {
                assert(r[i] == l[i]);
            }
        } else if i < l.len() {
            assert(r[i] == l[i]);
        }
    }
}

proof fn lemma_put_drawn_texts(
    l: Seq<(Seq<char>, Seq<char>)>,
    k: Seq<char>,
    v: Seq<char>,
    pool: Seq<Seq<char>>,
)
    requires
        forall|i: int| 0 <= i < l.len() ==> from_pool(pool, (#[trigger] l[i]).1),
        from_pool(pool, v),
    ensures
        forall|i: int| 0 <= i < assoc_put(l, k, v).len() ==> from_pool(pool, (#[trigger] assoc_put(l, k, v)[i]).1),
{
    let r = assoc_put(l, k, v);
    let f = assoc_find(l, k);
    lemma_assoc_find_props(l, k);
    assert forall|i: int| 0 <= i < r.len() implies from_pool(pool, (#[trigger] r[i]).1) by {
        if f >= 0 {
            if i != f {
                assert(r[i] == l[i]);
            }
        } else if i < l.len() {
            assert(r[i] == l[i]);
        }
    }
}

proof fn lemma_line_drawn(
    st: AssignState,
    ms: Seq<PreView>,
    li: usize,
    pane_id: Seq<char>,
    line: Seq<char>,
    reuse: bool,
    pool: Seq<Seq<char>>,
)
    requires
        drawn_from(st, pool),
    ensures
        drawn_from(assign_line(st, ms, li, pane_id, line, reuse).0, pool),
    decreases ms.len(),
{
    if ms.len() > 0 {
        lemma_line_drawn(st, ms.drop_last(), li, pane_id, line, reuse, pool);
        let (s1, done) = assign_line(st, ms.drop_last(), li, pane_id, line, reuse);
        lemma_step_drawn(s1, ms.last(), li, pane_id, line, reuse, pool);
    }
}

proof fn lemma_pane_drawn(
    st: AssignState,
    ms: Seq<Seq<PreView>>,
    pane_id: Seq<char>,
    lines: Seq<Seq<char>>,
    reuse: bool,
    pool: Seq<Seq<char>>,
)
    requires
        drawn_from(st, pool),
    ensures
        drawn_from(assign_pane(st, ms, pane_id, lines, reuse).0, pool),
    decreases ms.len(),
{
    if ms.len() > 0 {
        let li = ms.len() - 1;
        lemma_pane_drawn(st, ms.drop_last(), pane_id, lines, reuse, pool);
        let (s1, done) = assign_pane(st, ms.drop_last(), pane_id, lines, reuse);
        lemma_line_drawn(s1, ms.last(), li as usize, pane_id, lines[li], reuse, pool);
    }
}

proof fn lemma_all_drawn(
    st: AssignState,
    all: Seq<Seq<Seq<PreView>>>,
    pane_ids: Seq<Seq<char>>,
    panes: Seq<Seq<Seq<char>>>,
    reuse: bool,
    pool: Seq<Seq<char>>,
)
    requires
        drawn_from(st, pool),
    ensures
        drawn_from(assign_all(st, all, pane_ids, panes, reuse).0, pool),
    decreases all.len(),
{
    if all.len() > 0 {
        let pi = all.len() - 1;
        lemma_all_drawn(st, all.drop_last(), pane_ids, panes, reuse, pool);
        let (s1, done) = assign_all(st, all.drop_last(), pane_ids, panes, reuse);
        lemma_pane_drawn(s1, all.last(), pane_ids[pi], panes[pi], reuse, pool);
    }
}

/// Law: every hint in the target table is from the pool (or is the `?`
/// given when the pool runs out).  When no hint of the pool is a prefix of
/// another, and none is empty or begins with `?`, no hint in the table is a
/// proper prefix of another: typing a hint never stops at another one.
pub proof fn law_table_prefix_free(h: Hinter, pool: Seq<Seq<char>>)
    ensures
        forall|i: int| 0 <= i < h.assigned(pool).0.2.len() ==> from_pool(pool, (#[trigger] h.assigned(pool).0.2[i]).0),
        prefix_free(pool) && (forall|i: int| 0 <= i < pool.len() ==> (#[trigger] pool[i]).len() > 0 && pool[i][0] != '?')
            ==> prefix_free_table(h.assigned(pool).0.2),
{
    let st0: AssignState = (pool, seq![], seq![]);
    assert forall|i: int| 0 <= i < st0.0.len() implies from_pool(pool, #[trigger] st0.0[i]) by {
        assert(pool.contains(pool[i]));
    }
    lemma_all_drawn(st0, h.found(), super::assign::pane_ids(h.pane_inputs@), h.lines_view(), h.reuse_hints, pool);
    let t = h.assigned(pool).0.2;
    if prefix_free(pool) && (forall|i: int| 0 <= i < pool.len() ==> (#[trigger] pool[i]).len() > 0 && pool[i][0] != '?') {
        assert forall|i: int, j: int| 0 <= i < t.len() && 0 <= j < t.len() && i != j implies !((#[trigger] t[i]).0.len()
            < (#[trigger] t[j]).0.len() && t[j].0.take(t[i].0.len() as int) == t[i].0) by {
            let a = t[i].0;
            let b = t[j].0;
            assert(from_pool(pool, a) && from_pool(pool, b));
            if a.len() < b.len() && b.take(a.len() as int) == a {
                if pool.contains(a) && pool.contains(b) {
                    let x = choose|x: int| 0 <= x < pool.len() && pool[x] == a;
                    let y = choose|y: int| 0 <= y < pool.len() && pool[y] == b;
                    assert(a.is_prefix_of(b));
                    assert(!pool[x].is_prefix_of(pool[y]));
                } else if pool.contains(b) {
                    let y = choose|y: int| 0 <= y < pool.len() && pool[y] == b;
                    assert(a == seq!['?']);
                    assert(b[0] == b.take(1)[0]);
                    assert(pool[y][0] != '?');
                } else {
                    assert(b == seq!['?']);
                    let x = choose|x: int| 0 <= x < pool.len() && pool[x] == a;
                    assert(pool[x].len() > 0);
                }
            }
        }
    }
}

/// Law: with an alphabet of distinct single letters, none of them `?`, that
/// can spell the hints needed, no hint in the target table built from the
/// generated pool is a proper prefix of another.
pub proof fn law_generated_table_prefix_free(h: Hinter)
    requires
        crate::hint::huffman::distinct_letters(crate::text::string_views(h.alphabet@)),
        forall|k: int| 0 <= k < h.alphabet@.len() ==> (#[trigger] h.alphabet@[k])@[0] != '?',
        !(h.alphabet@.len() == 1 && h.needed() > 1),
        h.needed() <= usize::MAX / 4,
    ensures
        prefix_free_table(h.assigned(super::pool_for(crate::text::string_views(h.alphabet@), h.needed())).0.2),
        forall|i: int|
            0 <= i < h.assigned(super::pool_for(crate::text::string_views(h.alphabet@), h.needed())).0.2.len() ==> {
                let key = (#[trigger] h.assigned(
                    super::pool_for(crate::text::string_views(h.alphabet@), h.needed()),
                ).0.2[i]).0;
                &&& key.len() > 0
                &&& forall|t: int| 0 <= t < key.len() ==> key[t] == '?' || crate::hint::huffman::is_letter(
                    crate::text::string_views(h.alphabet@),
                    #[trigger] key[t],
                )
            },
{
    let alph = crate::text::string_views(h.alphabet@);
    let n = h.needed();
    let pool = super::pool_for(alph, n);
    crate::hint::huffman::law_hints_prefix_free(alph, n);
    crate::hint::huffman::law_hints_spelt_with_letters(alph, n);
    assert forall|i: int| 0 <= i < pool.len() implies (#[trigger] pool[i]).len() > 0 && pool[i][0] != '?' by {
        assert(crate::hint::huffman::is_letter(alph, pool[i][0]));
        let k = choose|k: int| 0 <= k < alph.len() && (#[trigger] alph[k])[0] == pool[i][0];
        assert(alph[k] == h.alphabet@[k]@);
    }
    law_table_prefix_free(h, pool);
    let tb = h.assigned(pool).0.2;
    assert forall|i: int| 0 <= i < tb.len() implies ({
        let key = (#[trigger] tb[i]).0;
        &&& key.len() > 0
        &&& forall|t: int| 0 <= t < key.len() ==> key[t] == '?' || crate::hint::huffman::is_letter(alph, #[trigger] key[t])
    }) by {
        let key = tb[i].0;
        assert(from_pool(pool, key));
        if pool.contains(key) {
            let x = choose|x: int| 0 <= x < pool.len() && pool[x] == key;
            assert(pool[x].len() > 0);
            assert forall|t: int| 0 <= t < key.len() implies key[t] == '?' || crate::hint::huffman::is_letter(
                alph,
                #[trigger] key[t],
            ) by {
                assert(crate::hint::huffman::is_letter(alph, pool[x][t]));
            }
        }
    }
}


/// A hint shown on a match, other than the `?` given when the pool runs
/// out, finds in the table a target with that match's text; without reuse,
/// that match's own target.
pub open spec fn shown_ok(
    table: Seq<(Seq<char>, TargetView)>,
    hint: Option<Seq<char>>,
    expected: TargetView,
    reuse: bool,
) -> bool {
    match hint {
        Some(x) => x != seq!['?'] ==> match assoc_get(table, x) {
            Some(t) => t.0 == expected.0 && (!reuse ==> t == expected),
            None => false,
        },
        None => true,
    }
}

/// The pool holds no hint twice, and no hint of it (but `?`) is in the
/// table yet; every hint given to a text (but `?`) has a target with that
/// text.
spec fn pool_ok(st: AssignState) -> bool {
    &&& st.0.no_duplicates()
    &&& forall|i: int| 0 <= i < st.0.len() && #[trigger] st.0[i] != seq!['?'] ==> assoc_get(st.2, st.0[i]) is None
    &&& forall|i: int|
        0 <= i < st.1.len() && (#[trigger] st.1[i]).1 != seq!['?'] ==> match assoc_get(st.2, st.1[i].1) {
            Some(t) => t.0 == st.1[i].0,
            None => false,
        }
}

proof fn lemma_step_shown(
    st: AssignState,
    m: PreView,
    li: usize,
    pane_id: Seq<char>,
    line: Seq<char>,
    reuse: bool,
)
    requires
        pool_ok(st),
    ensures
        pool_ok(assign_step(st, m, li, pane_id, line, reuse).0),
        forall|x: Option<Seq<char>>, e: TargetView|
            shown_ok(st.2, x, e, reuse) ==> #[trigger] shown_ok(
                assign_step(st, m, li, pane_id, line, reuse).0.2,
                x,
                e,
                reuse,
            ),
        shown_ok(
            assign_step(st, m, li, pane_id, line, reuse).0.2,
            assign_step(st, m, li, pane_id, line, reuse).1.3,
            super::assign::match_target(m, li, pane_id),
            reuse,
        ),
{
    let q = seq!['?'];
    let r = assign_step(st, m, li, pane_id, line, reuse);
    let (popped, hint, rest) = choose_hint(st, m.2, reuse);
    let i = assoc_find(st.1, m.2);
    lemma_assoc_find_props(st.1, m.2);
    let em = super::assign::match_target(m, li, pane_id);
    if too_wide(hint, m.2) {
        if popped && st.0.len() > 0 {
            assert(rest.push(hint) =~= st.0);
        }
        if popped && st.0.len() == 0 {
            assert(r.0.0 =~= seq![q]);
        }
    } else {
        let t2 = r.0.2;
        assert(t2 == assoc_put(st.2, hint, em));
        // The table changes at `hint` only.
        assert forall|y: Seq<char>| y != hint implies #[trigger] assoc_get(t2, y) == assoc_get(st.2, y) by {
            lemma_get_put(st.2, hint, em, y);
        }
        lemma_get_put(st.2, hint, em, hint);
        if reuse && i >= 0 {
            // The hint given to an equal text: its target already has this text.
            if hint != q {
                assert(st.1[i].1 != q);
                assert(assoc_get(st.2, hint) is Some);
            }
            assert forall|x: Option<Seq<char>>, e: TargetView| shown_ok(st.2, x, e, reuse) implies #[trigger] shown_ok(
                t2,
                x,
                e,
                reuse,
            ) by {
                if let Some(y) = x {
                    if y != q && y != hint {
                        assert(assoc_get(t2, y) == assoc_get(st.2, y));
                    }
                }
            }
            assert forall|j: int| 0 <= j < r.0.1.len() && (#[trigger] r.0.1[j]).1 != q implies match assoc_get(
                t2,
                r.0.1[j].1,
            ) {
                Some(t) => t.0 == r.0.1[j].0,
                None => false,
            } by {
                assert(r.0.1[j] == st.1[j]);
                if st.1[j].1 != hint {
                    assert(assoc_get(t2, st.1[j].1) == assoc_get(st.2, st.1[j].1));
                }
            }
            assert forall|k: int| 0 <= k < r.0.0.len() && #[trigger] r.0.0[k] != q implies assoc_get(
                r.0.2,
                r.0.0[k],
            ) is None by {
                assert(r.0.0[k] == st.0[k]);
                if st.0[k] == hint && hint != q {
                    assert(assoc_get(st.2, hint) is Some);
                }
            }
        } else if st.0.len() > 0 {
            let n = st.0.len() - 1;
            assert(hint == st.0[n]);
            assert forall|k: int| 0 <= k < rest.len() implies #[trigger] rest[k] != hint by {
                assert(rest[k] == st.0[k]);
            }
            assert forall|x: Option<Seq<char>>, e: TargetView| shown_ok(st.2, x, e, reuse) implies #[trigger] shown_ok(
                t2,
                x,
                e,
                reuse,
            ) by {
                if let Some(y) = x {
                    if y != q {
                        assert(assoc_get(st.2, y) is Some);
                        if y == hint {
                            assert(assoc_get(st.2, st.0[n]) is None);
                        }
                        assert(assoc_get(t2, y) == assoc_get(st.2, y));
                    }
                }
            }
            let s1 = r.0.1;
            if reuse {
                lemma_put_entries(st.1, m.2, hint);
            }
            assert forall|j: int| 0 <= j < s1.len() && (#[trigger] s1[j]).1 != q implies match assoc_get(
                t2,
                s1[j].1,
            ) {
                Some(t) => t.0 == s1[j].0,
                None => false,
            } by {
                if reuse && s1[j] == (m.2, hint) {
                } else {
                    assert(j < st.1.len() && s1[j] == st.1[j]);
                    assert(assoc_get(st.2, st.1[j].1) is Some);
                    if st.1[j].1 == hint {
                        assert(assoc_get(st.2, st.0[n]) is None);
                    }
                    assert(assoc_get(t2, st.1[j].1) == assoc_get(st.2, st.1[j].1));
                }
            }
            assert forall|k: int| 0 <= k < rest.len() && #[trigger] rest[k] != q implies assoc_get(t2, rest[k]) is None by {
                assert(rest[k] == st.0[k]);
                assert(assoc_get(t2, rest[k]) == assoc_get(st.2, rest[k]));
            }
            assert(rest.no_duplicates()) by {
                assert forall|a: int, b: int| 0 <= a < rest.len() && 0 <= b < rest.len() && a != b implies rest[a]
                    != rest[b] by {
                    assert(rest[a] == st.0[a] && rest[b] == st.0[b]);
                }
            }
        } else {
            assert(hint == q);
            let s1 = r.0.1;
            if reuse {
                lemma_put_entries(st.1, m.2, hint);
            }
            assert forall|x: Option<Seq<char>>, e: TargetView| shown_ok(st.2, x, e, reuse) implies #[trigger] shown_ok(
                t2,
                x,
                e,
                reuse,
            ) by {
                if let Some(y) = x {
                    if y != q {
                        assert(assoc_get(t2, y) == assoc_get(st.2, y));
                    }
                }
            }
            assert forall|j: int| 0 <= j < s1.len() && (#[trigger] s1[j]).1 != q implies match assoc_get(
                t2,
                s1[j].1,
            ) {
                Some(t) => t.0 == s1[j].0,
                None => false,
            } by {
                if reuse && s1[j] == (m.2, hint) {
                } else {
                    assert(j < st.1.len() && s1[j] == st.1[j]);
                    assert(assoc_get(t2, st.1[j].1) == assoc_get(st.2, st.1[j].1));
                }
            }
        }
    }
}


proof fn lemma_line_shown(
    st: AssignState,
    ms: Seq<PreView>,
    li: usize,
    pane_id: Seq<char>,
    line: Seq<char>,
    reuse: bool,
)
    requires
        pool_ok(st),
    ensures
        pool_ok(assign_line(st, ms, li, pane_id, line, reuse).0),
        assign_line(st, ms, li, pane_id, line, reuse).1.len() == ms.len(),
        forall|x: Option<Seq<char>>, e: TargetView|
            shown_ok(st.2, x, e, reuse) ==> #[trigger] shown_ok(
                assign_line(st, ms, li, pane_id, line, reuse).0.2,
                x,
                e,
                reuse,
            ),
        forall|k: int|
            0 <= k < ms.len() ==> shown_ok(
                assign_line(st, ms, li, pane_id, line, reuse).0.2,
                (#[trigger] assign_line(st, ms, li, pane_id, line, reuse).1[k]).3,
                super::assign::match_target(ms[k], li, pane_id),
                reuse,
            ),
    decreases ms.len(),
{
    if ms.len() > 0 {
        lemma_line_shown(st, ms.drop_last(), li, pane_id, line, reuse);
        let (s1, done) = assign_line(st, ms.drop_last(), li, pane_id, line, reuse);
        lemma_step_shown(s1, ms.last(), li, pane_id, line, reuse);
        let r = assign_line(st, ms, li, pane_id, line, reuse);
        assert forall|k: int| 0 <= k < ms.len() implies shown_ok(
            r.0.2,
            (#[trigger] r.1[k]).3,
            super::assign::match_target(ms[k], li, pane_id),
            reuse,
        ) by {
            if k < ms.len() - 1 {
                assert(r.1[k] == done[k]);
                assert(ms.drop_last()[k] == ms[k]);
                assert(shown_ok(s1.2, done[k].3, super::assign::match_target(ms[k], li, pane_id), reuse));
            }
        }
    }
}

proof fn lemma_pane_shown(
    st: AssignState,
    ms: Seq<Seq<PreView>>,
    pane_id: Seq<char>,
    lines: Seq<Seq<char>>,
    reuse: bool,
)
    requires
        pool_ok(st),
    ensures
        pool_ok(assign_pane(st, ms, pane_id, lines, reuse).0),
        assign_pane(st, ms, pane_id, lines, reuse).1.len() == ms.len(),
        forall|l: int| 0 <= l < ms.len() ==> (#[trigger] assign_pane(st, ms, pane_id, lines, reuse).1[l]).len() == ms[l].len(),
        forall|x: Option<Seq<char>>, e: TargetView|
            shown_ok(st.2, x, e, reuse) ==> #[trigger] shown_ok(
                assign_pane(st, ms, pane_id, lines, reuse).0.2,
                x,
                e,
                reuse,
            ),
        forall|l: int, k: int|
            0 <= l < ms.len() && 0 <= k < ms[l].len() ==> shown_ok(
                assign_pane(st, ms, pane_id, lines, reuse).0.2,
                (#[trigger] assign_pane(st, ms, pane_id, lines, reuse).1[l][k]).3,
                super::assign::match_target(ms[l][k], l as usize, pane_id),
                reuse,
            ),
    decreases ms.len(),
{
    if ms.len() > 0 {
        let li = ms.len() - 1;
        lemma_pane_shown(st, ms.drop_last(), pane_id, lines, reuse);
        let (s1, done) = assign_pane(st, ms.drop_last(), pane_id, lines, reuse);
        lemma_line_shown(s1, ms.last(), li as usize, pane_id, lines[li], reuse);
        let r = assign_pane(st, ms, pane_id, lines, reuse);
        assert forall|l: int| 0 <= l < ms.len() implies (#[trigger] r.1[l]).len() == ms[l].len() by {
            if l < li {
                assert(r.1[l] == done[l]);
                assert(ms.drop_last()[l] == ms[l]);
            }
        }
        assert forall|l: int, k: int| 0 <= l < ms.len() && 0 <= k < ms[l].len() implies shown_ok(
            r.0.2,
            (#[trigger] r.1[l][k]).3,
            super::assign::match_target(ms[l][k], l as usize, pane_id),
            reuse,
        ) by {
            if l < li {
                assert(r.1[l] == done[l]);
                assert(ms.drop_last()[l] == ms[l]);
                assert(shown_ok(s1.2, done[l][k].3, super::assign::match_target(ms[l][k], l as usize, pane_id), reuse));
            } else {
                assert(r.1[l] == assign_line(s1, ms.last(), li as usize, pane_id, lines[li], reuse).1);
            }
        }
    }
}

proof fn lemma_all_shown(
    st: AssignState,
    all: Seq<Seq<Seq<PreView>>>,
    pane_ids: Seq<Seq<char>>,
    panes: Seq<Seq<Seq<char>>>,
    reuse: bool,
)
    requires
        pool_ok(st),
    ensures
        pool_ok(assign_all(st, all, pane_ids, panes, reuse).0),
        assign_all(st, all, pane_ids, panes, reuse).1.len() == all.len(),
        forall|p: int| 0 <= p < all.len() ==> (#[trigger] assign_all(st, all, pane_ids, panes, reuse).1[p]).len() == all[p].len(),
        forall|p: int, l: int|
            0 <= p < all.len() && 0 <= l < all[p].len() ==> (#[trigger] assign_all(
                st,
                all,
                pane_ids,
                panes,
                reuse,
            ).1[p][l]).len() == all[p][l].len(),
        forall|p: int, l: int, k: int|
            0 <= p < all.len() && 0 <= l < all[p].len() && 0 <= k < all[p][l].len() ==> shown_ok(
                assign_all(st, all, pane_ids, panes, reuse).0.2,
                (#[trigger] assign_all(st, all, pane_ids, panes, reuse).1[p][l][k]).3,
                super::assign::match_target(all[p][l][k], l as usize, pane_ids[p]),
                reuse,
            ),
    decreases all.len(),
{
    if all.len() > 0 {
        let pi = all.len() - 1;
        lemma_all_shown(st, all.drop_last(), pane_ids, panes, reuse);
        let (s1, done) = assign_all(st, all.drop_last(), pane_ids, panes, reuse);
        lemma_pane_shown(s1, all.last(), pane_ids[pi], panes[pi], reuse);
        let r = assign_all(st, all, pane_ids, panes, reuse);
        assert forall|p: int| 0 <= p < all.len() implies (#[trigger] r.1[p]).len() == all[p].len() by {
            if p < pi {
                assert(r.1[p] == done[p]);
                assert(all.drop_last()[p] == all[p]);
            }
        }
        assert forall|p: int, l: int| 0 <= p < all.len() && 0 <= l < all[p].len() implies (#[trigger] r.1[p][l]).len()
            == all[p][l].len() by {
            if p < pi {
                assert(r.1[p] == done[p]);
                assert(all.drop_last()[p] == all[p]);
            }
        }
        assert forall|p: int, l: int, k: int|
            0 <= p < all.len() && 0 <= l < all[p].len() && 0 <= k < all[p][l].len() implies shown_ok(
            r.0.2,
            (#[trigger] r.1[p][l][k]).3,
            super::assign::match_target(all[p][l][k], l as usize, pane_ids[p]),
            reuse,
        ) by {
            if p < pi {
                assert(r.1[p] == done[p]);
                assert(all.drop_last()[p] == all[p]);
                assert(shown_ok(
                    s1.2,
                    done[p][l][k].3,
                    super::assign::match_target(all[p][l][k], l as usize, pane_ids[p]),
                    reuse,
                ));
            }
        }
    }
}

/// Law: a hint shown on a match selects a target with that match's text,
/// and in jump mode (no reuse) that match's own target: its text, its line,
/// its column and its pane.  This holds of every hint but the `?` given
/// when the pool runs out, whenever the pool holds no hint twice.
pub proof fn law_shown_hint_targets_match(h: Hinter, pool: Seq<Seq<char>>)
    requires
        pool.no_duplicates(),
    ensures
        forall|p: int, l: int, k: int|
            0 <= p < h.found().len() && 0 <= l < h.found()[p].len() && 0 <= k < h.found()[p][l].len() ==> shown_ok(
                h.assigned(pool).0.2,
                (#[trigger] h.assigned(pool).1[p][l][k]).3,
                super::assign::match_target(
                    h.found()[p][l][k],
                    l as usize,
                    super::assign::pane_ids(h.pane_inputs@)[p],
                ),
                h.reuse_hints,
            ),
{
    let st0: AssignState = (pool, seq![], seq![]);
    assert(pool_ok(st0));
    lemma_all_shown(st0, h.found(), super::assign::pane_ids(h.pane_inputs@), h.lines_view(), h.reuse_hints);
}


proof fn lemma_first_occurrences(s: Seq<Seq<char>>)
    ensures
        super::assign::first_occurrences(s).no_duplicates(),
        forall|x: Seq<char>| #[trigger] super::assign::first_occurrences(s).contains(x) <==> s.contains(x),
    decreases s.len(),
{
    if s.len() > 0 {
        let d = s.drop_last();
        lemma_first_occurrences(d);
        let f = super::assign::first_occurrences(d);
        assert forall|x: Seq<char>| s.contains(x) <==> d.contains(x) || x == s.last() by {
            if s.contains(x) {
                let i = choose|i: int| 0 <= i < s.len() && s[i] == x;
                if i < s.len() - 1 {
                    assert(d[i] == x);
                }
            }
            if d.contains(x) {
                let i = choose|i: int| 0 <= i < d.len() && d[i] == x;
                assert(s[i] == x);
            }
            if x == s.last() {
                assert(s[s.len() - 1] == x);
            }
        }
        if !f.contains(s.last()) {
            let g = f.push(s.last());
            assert forall|x: Seq<char>| g.contains(x) <==> f.contains(x) || x == s.last() by {
                if g.contains(x) {
                    let i = choose|i: int| 0 <= i < g.len() && g[i] == x;
                    if i < f.len() {
                        assert(f[i] == x);
                    }
                }
                if f.contains(x) {
                    let i = choose|i: int| 0 <= i < f.len() && f[i] == x;
                    assert(g[i] == x);
                }
                if x == s.last() {
                    assert(g[f.len() as int] == x);
                }
            }
            assert forall|a: int, b: int| 0 <= a < g.len() && 0 <= b < g.len() && a != b implies g[a] != g[b] by {
                if a < f.len() && b < f.len() {
                    assert(g[a] == f[a] && g[b] == f[b]);
                } else if a < f.len() {
                    assert(g[a] == f[a]);
                    assert(f.contains(g[a]));
                } else if b < f.len() {
                    assert(g[b] == f[b]);
                    assert(f.contains(g[b]));
                }
            }
        }
    }
}

proof fn lemma_pane_texts_contain(lines: Seq<Seq<PreView>>)
    ensures
        forall|l: int, k: int|
            0 <= l < lines.len() && 0 <= k < lines[l].len() ==> super::assign::pane_texts(lines).contains(
                (#[trigger] lines[l][k]).2,
            ),
    decreases lines.len(),
{
    if lines.len() > 0 {
        let d = lines.drop_last();
        lemma_pane_texts_contain(d);
        let a = super::assign::pane_texts(d);
        let b = lines.last().map_values(|m: PreView| m.2);
        assert forall|l: int, k: int| 0 <= l < lines.len() && 0 <= k < lines[l].len() implies super::assign::pane_texts(
            lines,
        ).contains((#[trigger] lines[l][k]).2) by {
            let t = a + b;
            if l < lines.len() - 1 {
                assert(d[l] == lines[l]);
                assert(a.contains(d[l][k].2));
                let i = choose|i: int| 0 <= i < a.len() && a[i] == d[l][k].2;
                assert(t[i] == a[i]);
            } else {
                assert(t[a.len() + k] == b[k]);
            }
        }
    }
}

proof fn lemma_all_texts_contain(all: Seq<Seq<Seq<PreView>>>)
    ensures
        forall|p: int, l: int, k: int|
            0 <= p < all.len() && 0 <= l < all[p].len() && 0 <= k < all[p][l].len() ==> super::assign::all_texts(
                all,
            ).contains((#[trigger] all[p][l][k]).2),
    decreases all.len(),
{
    if all.len() > 0 {
        let d = all.drop_last();
        lemma_all_texts_contain(d);
        lemma_pane_texts_contain(all.last());
        let a = super::assign::all_texts(d);
        let b = super::assign::pane_texts(all.last());
        assert forall|p: int, l: int, k: int|
            0 <= p < all.len() && 0 <= l < all[p].len() && 0 <= k < all[p][l].len() implies super::assign::all_texts(
            all,
        ).contains((#[trigger] all[p][l][k]).2) by {
            let t = a + b;
            if p < all.len() - 1 {
                assert(d[p] == all[p]);
                assert(a.contains(d[p][l][k].2));
                let i = choose|i: int| 0 <= i < a.len() && a[i] == d[p][l][k].2;
                assert(t[i] == a[i]);
            } else {
                assert(b.contains(all.last()[l][k].2));
                let i = choose|i: int| 0 <= i < b.len() && b[i] == all.last()[l][k].2;
                assert(t[a.len() + i] == b[i]);
            }
        }
    }
}

/// With reuse: the pool and the texts given hints together account for the
/// whole pool, given texts are distinct texts of the matches, and every
/// hint around is from the pool.
spec fn reuse_ok(st: AssignState, texts: Set<Seq<char>>, n: nat, pool: Seq<Seq<char>>) -> bool {
    &&& st.0.len() + st.1.len() == n
    &&& texts.finite()
    &&& texts.len() <= n
    &&& forall|i: int, j: int|
        0 <= i < st.1.len() && 0 <= j < st.1.len() && i != j ==> (#[trigger] st.1[i]).0 != (#[trigger] st.1[j]).0
    &&& forall|i: int| 0 <= i < st.1.len() ==> texts.contains((#[trigger] st.1[i]).0) && pool.contains(st.1[i].1)
    &&& forall|i: int| 0 <= i < st.0.len() ==> pool.contains(#[trigger] st.0[i])
}

proof fn lemma_step_lasts(
    st: AssignState,
    m: PreView,
    li: usize,
    pane_id: Seq<char>,
    line: Seq<char>,
    texts: Set<Seq<char>>,
    n: nat,
    pool: Seq<Seq<char>>,
)
    requires
        reuse_ok(st, texts, n, pool),
        texts.contains(m.2),
    ensures
        reuse_ok(assign_step(st, m, li, pane_id, line, true).0, texts, n, pool),
        assign_step(st, m, li, pane_id, line, true).1.3 matches Some(x) ==> pool.contains(x),
{
    let r = assign_step(st, m, li, pane_id, line, true);
    let i = assoc_find(st.1, m.2);
    lemma_assoc_find_props(st.1, m.2);
    if i >= 0 {
        assert(pool.contains(st.1[i].1));
    } else if st.0.len() > 0 {
        let last = st.0.len() - 1;
        let hint = st.0[last];
        assert(pool.contains(hint));
        let rest = st.0.drop_last();
        if too_wide(hint, m.2) {
            assert(rest.push(hint) =~= st.0);
        } else {
            assert(r.0.1 == st.1.push((m.2, hint)));
            assert forall|k: int| 0 <= k < r.0.0.len() implies pool.contains(#[trigger] r.0.0[k]) by {
                assert(r.0.0[k] == st.0[k]);
            }
            assert forall|a: int, b: int|
                0 <= a < r.0.1.len() && 0 <= b < r.0.1.len() && a != b implies (#[trigger] r.0.1[a]).0 != (
                #[trigger] r.0.1[b]).0 by {
                if a < st.1.len() && b < st.1.len() {
                    assert(r.0.1[a] == st.1[a] && r.0.1[b] == st.1[b]);
                } else if a < st.1.len() {
                    assert(r.0.1[a] == st.1[a]);
                } else {
                    assert(r.0.1[b] == st.1[b]);
                }
            }
            assert forall|k: int| 0 <= k < r.0.1.len() implies texts.contains((#[trigger] r.0.1[k]).0) && pool.contains(
                r.0.1[k].1,
            ) by {
                if k < st.1.len() {
                    assert(r.0.1[k] == st.1[k]);
                }
            }
        }
    } else {
        // The pool cannot be empty: the texts given hints are fewer than
        // the distinct texts, which are no more than the pool.
        let keys = st.1.map_values(|e: (Seq<char>, Seq<char>)| e.0);
        assert(keys.no_duplicates()) by {
            assert forall|a: int, b: int| 0 <= a < keys.len() && 0 <= b < keys.len() && a != b implies keys[a]
                != keys[b] by {
                assert(keys[a] == st.1[a].0 && keys[b] == st.1[b].0);
            }
        }
        keys.unique_seq_to_set();
        assert(keys.to_set().subset_of(texts.remove(m.2))) by {
            assert forall|x: Seq<char>| #[trigger] keys.to_set().contains(x) implies texts.remove(m.2).contains(x) by {
                let k = choose|k: int| 0 <= k < keys.len() && keys[k] == x;
                assert(keys[k] == st.1[k].0);
                assert(texts.contains(st.1[k].0));
            }
        }
        vstd::set_lib::lemma_len_subset(keys.to_set(), texts.remove(m.2));
        assert(false);
    }
}

proof fn lemma_line_lasts(
    st: AssignState,
    ms: Seq<PreView>,
    li: usize,
    pane_id: Seq<char>,
    line: Seq<char>,
    texts: Set<Seq<char>>,
    n: nat,
    pool: Seq<Seq<char>>,
)
    requires
        reuse_ok(st, texts, n, pool),
        forall|k: int| 0 <= k < ms.len() ==> texts.contains((#[trigger] ms[k]).2),
    ensures
        reuse_ok(assign_line(st, ms, li, pane_id, line, true).0, texts, n, pool),
        assign_line(st, ms, li, pane_id, line, true).1.len() == ms.len(),
        forall|k: int|
            0 <= k < ms.len() ==> ((#[trigger] assign_line(st, ms, li, pane_id, line, true).1[k]).3 matches Some(x)
                ==> pool.contains(x)),
    decreases ms.len(),
{
    if ms.len() > 0 {
        let d = ms.drop_last();
        assert forall|k: int| 0 <= k < d.len() implies texts.contains((#[trigger] d[k]).2) by {
            assert(d[k] == ms[k]);
        }
        lemma_line_lasts(st, d, li, pane_id, line, texts, n, pool);
        let (s1, done) = assign_line(st, d, li, pane_id, line, true);
        lemma_step_lasts(s1, ms.last(), li, pane_id, line, texts, n, pool);
        let r = assign_line(st, ms, li, pane_id, line, true);
        assert forall|k: int| 0 <= k < ms.len() implies ((#[trigger] r.1[k]).3 matches Some(x) ==> pool.contains(x)) by {
            if k < ms.len() - 1 {
                assert(r.1[k] == done[k]);
            }
        }
    }
}

proof fn lemma_pane_lasts(
    st: AssignState,
    ms: Seq<Seq<PreView>>,
    pane_id: Seq<char>,
    lines: Seq<Seq<char>>,
    texts: Set<Seq<char>>,
    n: nat,
    pool: Seq<Seq<char>>,
)
    requires
        reuse_ok(st, texts, n, pool),
        forall|l: int, k: int| 0 <= l < ms.len() && 0 <= k < ms[l].len() ==> texts.contains((#[trigger] ms[l][k]).2),
    ensures
        reuse_ok(assign_pane(st, ms, pane_id, lines, true).0, texts, n, pool),
        assign_pane(st, ms, pane_id, lines, true).1.len() == ms.len(),
        forall|l: int, k: int|
            0 <= l < ms.len() && 0 <= k < ms[l].len() ==> ((#[trigger] assign_pane(st, ms, pane_id, lines, true).1[l][k]).3 matches Some(x)
                ==> pool.contains(x)),
    decreases ms.len(),
{
    if ms.len() > 0 {
        let li = ms.len() - 1;
        let d = ms.drop_last();
        assert forall|l: int, k: int| 0 <= l < d.len() && 0 <= k < d[l].len() implies texts.contains(
            (#[trigger] d[l][k]).2,
        ) by {
            assert(d[l] == ms[l]);
        }
        lemma_pane_lasts(st, d, pane_id, lines, texts, n, pool);
        let (s1, done) = assign_pane(st, d, pane_id, lines, true);
        assert forall|k: int| 0 <= k < ms.last().len() implies texts.contains((#[trigger] ms.last()[k]).2) by {
            assert(ms.last()[k] == ms[li][k]);
        }
        lemma_line_lasts(s1, ms.last(), li as usize, pane_id, lines[li], texts, n, pool);
        let r = assign_pane(st, ms, pane_id, lines, true);
        assert forall|l: int, k: int| 0 <= l < ms.len() && 0 <= k < ms[l].len() implies ((
        #[trigger] r.1[l][k]).3 matches Some(x) ==> pool.contains(x)) by {
            if l < li {
                assert(r.1[l] == done[l]);
                assert(d[l] == ms[l]);
            } else {
                assert(r.1[l] == assign_line(s1, ms.last(), li as usize, pane_id, lines[li], true).1);
            }
        }
    }
}

proof fn lemma_all_lasts(
    st: AssignState,
    all: Seq<Seq<Seq<PreView>>>,
    pane_ids: Seq<Seq<char>>,
    panes: Seq<Seq<Seq<char>>>,
    texts: Set<Seq<char>>,
    n: nat,
    pool: Seq<Seq<char>>,
)
    requires
        reuse_ok(st, texts, n, pool),
        forall|p: int, l: int, k: int|
            0 <= p < all.len() && 0 <= l < all[p].len() && 0 <= k < all[p][l].len() ==> texts.contains(
                (#[trigger] all[p][l][k]).2,
            ),
    ensures
        assign_all(st, all, pane_ids, panes, true).1.len() == all.len(),
        forall|p: int, l: int, k: int|
            0 <= p < all.len() && 0 <= l < all[p].len() && 0 <= k < all[p][l].len() ==> ((#[trigger] assign_all(
                st,
                all,
                pane_ids,
                panes,
                true,
            ).1[p][l][k]).3 matches Some(x) ==> pool.contains(x)),
        reuse_ok(assign_all(st, all, pane_ids, panes, true).0, texts, n, pool),
    decreases all.len(),
{
    if all.len() > 0 {
        let pi = all.len() - 1;
        let d = all.drop_last();
        assert forall|p: int, l: int, k: int|
            0 <= p < d.len() && 0 <= l < d[p].len() && 0 <= k < d[p][l].len() implies texts.contains(
            (#[trigger] d[p][l][k]).2,
        ) by {
            assert(d[p] == all[p]);
        }
        lemma_all_lasts(st, d, pane_ids, panes, texts, n, pool);
        let (s1, done) = assign_all(st, d, pane_ids, panes, true);
        assert forall|l: int, k: int| 0 <= l < all.last().len() && 0 <= k < all.last()[l].len() implies texts.contains(
            (#[trigger] all.last()[l][k]).2,
        ) by {
            assert(all.last()[l][k] == all[pi][l][k]);
        }
        lemma_pane_lasts(s1, all.last(), pane_ids[pi], panes[pi], texts, n, pool);
        let r = assign_all(st, all, pane_ids, panes, true);
        assert forall|p: int, l: int, k: int|
            0 <= p < all.len() && 0 <= l < all[p].len() && 0 <= k < all[p][l].len() implies ((
        #[trigger] r.1[p][l][k]).3 matches Some(x) ==> pool.contains(x)) by {
            if p < pi {
                assert(r.1[p] == done[p]);
                assert(d[p] == all[p]);
            } else {
                assert(r.1[p] == assign_pane(s1, all.last(), pane_ids[pi], panes[pi], true).1);
            }
        }
    }
}

/// Law: with hint reuse, a pool with at least one hint per distinct text
/// never runs out: every hint shown is from the pool.
pub proof fn law_reused_hints_from_pool(h: Hinter, pool: Seq<Seq<char>>)
    requires
        h.reuse_hints,
        pool.len() >= h.needed(),
    ensures
        forall|p: int, l: int, k: int|
            0 <= p < h.found().len() && 0 <= l < h.found()[p].len() && 0 <= k < h.found()[p][l].len() ==> ((
            #[trigger] h.assigned(pool).1[p][l][k]).3 matches Some(x) ==> pool.contains(x)),
{
    let all_t = super::assign::all_texts(h.found());
    let texts = all_t.to_set();
    let fo = super::assign::first_occurrences(all_t);
    lemma_first_occurrences(all_t);
    fo.unique_seq_to_set();
    assert(fo.to_set() =~= texts);
    lemma_all_texts_contain(h.found());
    let st0: AssignState = (pool, seq![], seq![]);
    assert forall|i: int| 0 <= i < st0.0.len() implies pool.contains(#[trigger] st0.0[i]) by {}
    assert forall|p: int, l: int, k: int|
        0 <= p < h.found().len() && 0 <= l < h.found()[p].len() && 0 <= k < h.found()[p][l].len() implies texts.contains(
        (#[trigger] h.found()[p][l][k]).2,
    ) by {}
    assert(reuse_ok(st0, texts, pool.len(), pool));
    lemma_all_lasts(
        st0,
        h.found(),
        super::assign::pane_ids(h.pane_inputs@),
        h.lines_view(),
        texts,
        pool.len(),
        pool,
    );
}

/// Law: in jump mode, a pool with at least one hint per match never runs
/// out: every hint shown is from the pool.
pub proof fn law_jump_hints_from_pool(h: Hinter, pool: Seq<Seq<char>>)
    requires
        !h.reuse_hints,
        pool.no_duplicates(),
        pool.len() >= all_total(h.found()),
    ensures
        forall|p: int, l: int, k: int|
            0 <= p < h.found().len() && 0 <= l < h.found()[p].len() && 0 <= k < h.found()[p][l].len() ==> ((
            #[trigger] h.assigned(pool).1[p][l][k]).3 matches Some(x) ==> pool.contains(x)),
{
    lemma_all_fresh(
        (pool, seq![], seq![]),
        h.found(),
        super::assign::pane_ids(h.pane_inputs@),
        h.lines_view(),
    );
}


/// Law: picking a shown hint picks its match.  With hints generated over an
/// alphabet of distinct single letters, none of them `?`, that can spell
/// the hints needed, every hint shown on a match selects a target with that
/// match's text; in jump mode, that match's own target (its line, column
/// and pane).
pub proof fn law_generated_hints_pick_their_match(h: Hinter)
    requires
        crate::hint::huffman::distinct_letters(crate::text::string_views(h.alphabet@)),
        h.alphabet@.len() > 0,
        forall|k: int| 0 <= k < h.alphabet@.len() ==> (#[trigger] h.alphabet@[k])@[0] != '?',
        !(h.alphabet@.len() == 1 && h.needed() > 1),
        h.needed() <= usize::MAX / 4,
    ensures
        forall|p: int, l: int, k: int|
            0 <= p < h.found().len() && 0 <= l < h.found()[p].len() && 0 <= k < h.found()[p][l].len() ==> ((
            #[trigger] h.assigned(super::pool_for(crate::text::string_views(h.alphabet@), h.needed())).1[p][l][k]).3 matches Some(x)
                ==> match assoc_get(
                h.assigned(super::pool_for(crate::text::string_views(h.alphabet@), h.needed())).0.2,
                x,
            ) {
                Some(t) => t.0 == h.found()[p][l][k].2 && (!h.reuse_hints ==> t == super::assign::match_target(
                    h.found()[p][l][k],
                    l as usize,
                    super::assign::pane_ids(h.pane_inputs@)[p],
                )),
                None => false,
            }),
{
    let alph = crate::text::string_views(h.alphabet@);
    let n = h.needed();
    let pool = super::pool_for(alph, n);
    crate::hint::huffman::law_hint_count(alph, n);
    crate::hint::huffman::law_hints_prefix_free(alph, n);
    crate::hint::huffman::law_hints_spelt_with_letters(alph, n);
    assert(pool.no_duplicates()) by {
        assert forall|i: int, j: int| 0 <= i < pool.len() && 0 <= j < pool.len() && i != j implies pool[i]
            != pool[j] by {
            assert(!pool[i].is_prefix_of(pool[j]));
        }
    }
    assert forall|x: Seq<char>| #[trigger] pool.contains(x) implies x != seq!['?'] by {
        let i = choose|i: int| 0 <= i < pool.len() && pool[i] == x;
        assert(pool[i].len() > 0);
        assert(crate::hint::huffman::is_letter(alph, pool[i][0]));
        let k = choose|k: int| 0 <= k < alph.len() && (#[trigger] alph[k])[0] == pool[i][0];
        assert(alph[k] == h.alphabet@[k]@);
    }
    if h.reuse_hints {
        law_reused_hints_from_pool(h, pool);
    } else {
        lemma_all_texts_len(h.found());
        law_jump_hints_from_pool(h, pool);
    }
    law_shown_hint_targets_match(h, pool);
    let a = h.assigned(pool);
    assert forall|p: int, l: int, k: int|
        0 <= p < h.found().len() && 0 <= l < h.found()[p].len() && 0 <= k < h.found()[p][l].len() implies ((
        #[trigger] a.1[p][l][k]).3 matches Some(x) ==> match assoc_get(a.0.2, x) {
            Some(t) => t.0 == h.found()[p][l][k].2 && (!h.reuse_hints ==> t == super::assign::match_target(
                h.found()[p][l][k],
                l as usize,
                super::assign::pane_ids(h.pane_inputs@)[p],
            )),
            None => false,
        }) by {
        if let Some(x) = a.1[p][l][k].3 {
            assert(pool.contains(x));
            assert(x != seq!['?']);
            assert(shown_ok(
                a.0.2,
                a.1[p][l][k].3,
                super::assign::match_target(h.found()[p][l][k], l as usize, super::assign::pane_ids(h.pane_inputs@)[p]),
                h.reuse_hints,
            ));
        }
    }
}

} // verus!
