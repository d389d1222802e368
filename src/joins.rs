use vstd::prelude::*;

use crate::model::{Dimension, FieldView, Join, JoinView, Metric};
use crate::text::{chars_equal, contains_chars, contains_sub, lower, lower_chars};

verus! {

/// `f` names table `t` (lowercased) as its source.
pub open spec fn sources(f: FieldView, t: Seq<char>) -> bool {
    f.source_table matches Some(s) && lower(s) == t
}

/// The lowercased tables that the selected dimensions and metrics name directly.
pub open spec fn direct_tables(dims: Seq<FieldView>, mets: Seq<FieldView>) -> Set<Seq<char>> {
    Set::new(
        |t: Seq<char>|
            (exists|i: int| 0 <= i < dims.len() && #[trigger] sources(dims[i], t)) || (exists|
                i: int,
            |
                0 <= i < mets.len() && #[trigger] sources(mets[i], t)),
    )
}

/// The ON text of join `a` mentions the table of join `b` (both lowercased).
pub open spec fn refers(joins: Seq<JoinView>, a: int, b: int) -> bool {
    contains_sub(lower(joins[a].on), lower(joins[b].table))
}

/// One round of the dependency closure: add every declared table that the ON
/// text of a join already in `s` mentions.
pub open spec fn step(joins: Seq<JoinView>, s: Set<Seq<char>>) -> Set<Seq<char>> {
    s.union(
        Set::new(
            |t: Seq<char>|
                exists|a: int, b: int|
                    0 <= a < joins.len() && 0 <= b < joins.len() && s.contains(lower(joins[a].table))
                        && #[trigger] refers(joins, a, b) && t == lower(joins[b].table),
        ),
    )
}

/// The tables reached from `s` in `n` rounds.
pub open spec fn reach(joins: Seq<JoinView>, s: Set<Seq<char>>, n: nat) -> Set<Seq<char>>
    decreases n,
{
    if n == 0 {
        s
    } else {
        step(joins, reach(joins, s, (n - 1) as nat))
    }
}

/// Table `t` is needed: it is reached from `direct` in finitely many rounds.
pub open spec fn required(joins: Seq<JoinView>, direct: Set<Seq<char>>, t: Seq<char>) -> bool {
    exists|n: nat| #[trigger] reach(joins, direct, n).contains(t)
}

/// The declared joins that a selection needs, in declaration order.
pub open spec fn needed_joins(
    joins: Seq<JoinView>,
    dims: Seq<FieldView>,
    mets: Seq<FieldView>,
) -> Seq<JoinView> {
    joins.filter(|j: JoinView| required(joins, direct_tables(dims, mets), lower(j.table)))
}

pub open spec fn dims_view(dims: Seq<&Dimension>) -> Seq<FieldView> {
    dims.map_values(|d: &Dimension| (*d)@)
}

pub open spec fn mets_view(mets: Seq<&Metric>) -> Seq<FieldView> {
    mets.map_values(|m: &Metric| (*m)@)
}

pub open spec fn joins_view(joins: Seq<Join>) -> Seq<JoinView> {
    joins.map_values(|j: Join| j@)
}

pub open spec fn join_refs_view(joins: Seq<&Join>) -> Seq<JoinView> {
    joins.map_values(|j: &Join| (*j)@)
}

pub open spec fn count_false(s: Seq<bool>) -> nat
    decreases s.len(),
{
    if s.len() == 0 {
        0
    } else {
        count_false(s.drop_last()) + if s.last() {
            0nat
        } else {
            1nat
        }
    }
}

proof fn lemma_count_update(s: Seq<bool>, k: int)
    requires
        0 <= k < s.len(),
    ensures
        count_false(s.update(k, true)) + (if s[k] {
            0int
        } else {
            1int
        }) == count_false(s),
    decreases s.len(),
{
    if k == s.len() - 1 {
        assert(s.update(k, true).drop_last() =~= s.drop_last());
    } else {
        lemma_count_update(s.drop_last(), k);
        assert(s.update(k, true).drop_last() =~= s.drop_last().update(k, true));
    }
}

/// A set that holds `direct` and is closed under a round holds every reached table.
proof fn lemma_closed_holds_reach(joins: Seq<JoinView>, direct: Set<Seq<char>>, s: Set<Seq<char>>, n: nat)
    requires
        direct.subset_of(s),
        forall|a: int, b: int|
            0 <= a < joins.len() && 0 <= b < joins.len() && s.contains(lower(joins[a].table))
                && #[trigger] refers(joins, a, b) ==> s.contains(lower(joins[b].table)),
    ensures
        reach(joins, direct, n).subset_of(s),
    decreases n,
{
    if n > 0 {
        lemma_closed_holds_reach(joins, direct, s, (n - 1) as nat);
    }
}

/// Whether some selected dimension or metric names table `t` (lowercased).
fn is_direct(dims: &Vec<&Dimension>, mets: &Vec<&Metric>, t: &Vec<char>) -> (r: bool)
    ensures
        r == direct_tables(dims_view(dims@), mets_view(mets@)).contains(t@),
{
    let ghost dv = dims_view(dims@);
    let ghost mv = mets_view(mets@);
    let mut i: usize = 0;
    while i < dims.len()
        invariant
            0 <= i <= dims.len(),
            dv == dims_view(dims@),
            forall|j: int| 0 <= j < i ==> !sources(#[trigger] dv[j], t@),
        decreases dims.len() - i,
    {
        let d: &Dimension = dims[i];
        match &d.source_table {
            Some(st) => {
                let ls = lower_chars(st.as_str());
                if chars_equal(&ls, t) {
                    assert(sources(dv[i as int], t@));
                    return true;
                }
            },
            None => {},
        }
        i = i + 1;
    }
    let mut i: usize = 0;
    while i < mets.len()
        invariant
            0 <= i <= mets.len(),
            dv == dims_view(dims@),
            mv == mets_view(mets@),
            forall|j: int| 0 <= j < dv.len() ==> !sources(#[trigger] dv[j], t@),
            forall|j: int| 0 <= j < i ==> !sources(#[trigger] mv[j], t@),
        decreases mets.len() - i,
    {
        let m: &Metric = mets[i];
        match &m.source_table {
            Some(st) => {
                let ls = lower_chars(st.as_str());
                if chars_equal(&ls, t) {
                    assert(sources(mv[i as int], t@));
                    return true;
                }
            },
            None => {},
        }
        i = i + 1;
    }
    false
}

/// Resolve which declared joins the selected dimensions and metrics need.
///
/// A join is needed when a selected field names its table as `source_table`, or
/// when the ON text of a needed join mentions its table; matching ignores ASCII
/// case. The result keeps declaration order.
pub fn resolve_joins<'a>(joins: &'a Vec<Join>, dims: &Vec<&Dimension>, mets: &Vec<&Metric>) -> (r:
    Vec<&'a Join>)
    ensures
        join_refs_view(r@) == needed_joins(joins_view(joins@), dims_view(dims@), mets_view(mets@)),
{
    let ghost jv = joins_view(joins@);
    let ghost direct = direct_tables(dims_view(dims@), mets_view(mets@));
    let n = joins.len();
    // Lowercased tables and ON texts, and whether each table is needed so far.
    let mut lt: Vec<Vec<char>> = Vec::new();
    let mut lon: Vec<Vec<char>> = Vec::new();
    let mut flags: Vec<bool> = Vec::new();
    let mut k: usize = 0;
    while k < n
        invariant
            0 <= k <= n,
            n == joins.len(),
            jv == joins_view(joins@),
            direct == direct_tables(dims_view(dims@), mets_view(mets@)),
            lt.len() == k,
            lon.len() == k,
            flags.len() == k,
            forall|m: int| 0 <= m < k ==> #[trigger] lt@[m]@ == lower(jv[m].table),
            forall|m: int| 0 <= m < k ==> #[trigger] lon@[m]@ == lower(jv[m].on),
            forall|m: int| 0 <= m < k ==> #[trigger] flags@[m] == direct.contains(lt@[m]@),
        decreases n - k,
    {
        let t = lower_chars(joins[k].table.as_str());
        let o = lower_chars(joins[k].on.as_str());
        let f = is_direct(dims, mets, &t);
        lt.push(t);
        lon.push(o);
        flags.push(f);
        k = k + 1;
    }
    let ghost mut needed: Set<Seq<char>> = direct;
    assert(forall|t: Seq<char>| needed.contains(t) ==> required(jv, direct, t)) by {
        assert forall|t: Seq<char>| needed.contains(t) implies required(jv, direct, t) by {
            assert(reach(jv, direct, 0).contains(t));
        }
    }
    loop
        invariant
            n == joins.len(),
            jv == joins_view(joins@),
            lt.len() == n,
            lon.len() == n,
            flags.len() == n,
            forall|m: int| 0 <= m < n ==> #[trigger] lt@[m]@ == lower(jv[m].table),
            forall|m: int| 0 <= m < n ==> #[trigger] lon@[m]@ == lower(jv[m].on),
            forall|m: int| 0 <= m < n ==> #[trigger] flags@[m] == needed.contains(lt@[m]@),
            direct.subset_of(needed),
            forall|t: Seq<char>| #[trigger] needed.contains(t) ==> required(jv, direct, t),
        ensures
            n == joins.len(),
            lt.len() == n,
            flags.len() == n,
            forall|m: int| 0 <= m < n ==> #[trigger] lt@[m]@ == lower(jv[m].table),
            forall|m: int| 0 <= m < n ==> #[trigger] flags@[m] == needed.contains(lt@[m]@),
            direct.subset_of(needed),
            forall|t: Seq<char>| #[trigger] needed.contains(t) ==> required(jv, direct, t),
            forall|a: int, b: int|
                0 <= a < n && 0 <= b < n && needed.contains(lower(jv[a].table))
                    && #[trigger] refers(jv, a, b) ==> needed.contains(lower(jv[b].table)),
        decreases count_false(flags@),
    {
        let ghost start_flags = flags@;
        let ghost start_needed = needed;
        let mut changed = false;
        let mut a: usize = 0;
        while a < n
            invariant
                0 <= a <= n,
                n == joins.len(),
                jv == joins_view(joins@),
                lt.len() == n,
                lon.len() == n,
                flags.len() == n,
                start_flags.len() == n,
                forall|m: int| 0 <= m < n ==> #[trigger] lt@[m]@ == lower(jv[m].table),
                forall|m: int| 0 <= m < n ==> #[trigger] lon@[m]@ == lower(jv[m].on),
                forall|m: int| 0 <= m < n ==> #[trigger] flags@[m] == needed.contains(lt@[m]@),
                direct.subset_of(needed),
                forall|t: Seq<char>| #[trigger] needed.contains(t) ==> required(jv, direct, t),
                changed ==> count_false(flags@) < count_false(start_flags),
                !changed ==> flags@ == start_flags && needed == start_needed,
                !changed ==> forall|x: int, b: int|
                    0 <= x < a && 0 <= b < n && needed.contains(lower(jv[x].table))
                        && #[trigger] refers(jv, x, b) ==> needed.contains(lower(jv[b].table)),
            decreases n - a,
        {
            if flags[a] {
                let mut b: usize = 0;
                while b < n
                    invariant
                        0 <= a < n,
                        0 <= b <= n,
                        n == joins.len(),
                        jv == joins_view(joins@),
                        lt.len() == n,
                        lon.len() == n,
                        flags.len() == n,
                        start_flags.len() == n,
                        flags@[a as int],
                        forall|m: int| 0 <= m < n ==> #[trigger] lt@[m]@ == lower(jv[m].table),
                        forall|m: int| 0 <= m < n ==> #[trigger] lon@[m]@ == lower(jv[m].on),
                        forall|m: int|
                            0 <= m < n ==> #[trigger] flags@[m] == needed.contains(lt@[m]@),
                        direct.subset_of(needed),
                        forall|t: Seq<char>|
                            #[trigger] needed.contains(t) ==> required(jv, direct, t),
                        changed ==> count_false(flags@) < count_false(start_flags),
                        !changed ==> flags@ == start_flags && needed == start_needed,
                        !changed ==> forall|x: int, y: int|
                            0 <= x < a && 0 <= y < n && needed.contains(lower(jv[x].table))
                                && #[trigger] refers(jv, x, y) ==> needed.contains(
                                lower(jv[y].table),
                            ),
                        !changed ==> forall|y: int|
                            0 <= y < b && #[trigger] refers(jv, a as int, y) ==> needed.contains(
                                lower(jv[y].table),
                            ),
                    decreases n - b,
                {
                    if !chars_equal(&lt[b], &lt[a]) && !flags[b] && contains_chars(&lon[a], &lt[b]) {
                        proof {
                            let tb = lt@[b as int]@;
                            let ta = lt@[a as int]@;
                            assert(needed.contains(ta));
                            let w = choose|w: nat| #[trigger] reach(jv, direct, w).contains(ta);
                            assert(refers(jv, a as int, b as int));
                            assert(reach(jv, direct, w + 1).contains(tb));
                        }
                        let ghost before = flags@;
                        let ghost grown = needed.insert(lt@[b as int]@);
                        let mut k: usize = 0;
                        while k < n
                            invariant
                                0 <= k <= n,
                                0 <= b < n,
                                lt.len() == n,
                                flags.len() == n,
                                before.len() == n,
                                !before[b as int],
                                grown == needed.insert(lt@[b as int]@),
                                forall|m: int|
                                    0 <= m < n ==> #[trigger] before[m] == needed.contains(
                                        lt@[m]@,
                                    ),
                                forall|m: int|
                                    0 <= m < k ==> #[trigger] flags@[m] == grown.contains(
                                        lt@[m]@,
                                    ),
                                forall|m: int| k <= m < n ==> #[trigger] flags@[m] == before[m],
                                count_false(flags@) <= count_false(before),
                                k > b ==> count_false(flags@) < count_false(before),
                            decreases n - k,
                        {
                            if chars_equal(&lt[k], &lt[b]) {
                                proof {
                                    lemma_count_update(flags@, k as int);
                                }
                                flags.set(k, true);
                            }
                            k = k + 1;
                        }
                        proof {
                            needed = grown;
                        }
                        changed = true;
                    }
                    b = b + 1;
                }
            }
            a = a + 1;
        }
        if !changed {
            break;
        }
    }
    // Every reached table is needed, and every needed table is reached.
    assert forall|t: Seq<char>| needed.contains(t) == required(jv, direct, t) by {
        if required(jv, direct, t) {
            let w = choose|w: nat| #[trigger] reach(jv, direct, w).contains(t);
            lemma_closed_holds_reach(jv, direct, needed, w);
        }
    }
    let ghost pred = |j: JoinView| required(jv, direct, lower(j.table));
    let mut r: Vec<&'a Join> = Vec::new();
    let mut k: usize = 0;
    while k < n
        invariant
            0 <= k <= n,
            n == joins.len(),
            jv == joins_view(joins@),
            lt.len() == n,
            flags.len() == n,
            forall|m: int| 0 <= m < n ==> #[trigger] lt@[m]@ == lower(jv[m].table),
            forall|m: int| 0 <= m < n ==> #[trigger] flags@[m] == needed.contains(lt@[m]@),
            forall|t: Seq<char>| needed.contains(t) == required(jv, direct, t),
            pred == (|j: JoinView| required(jv, direct, lower(j.table))),
            join_refs_view(r@) == jv.take(k as int).filter(pred),
        decreases n - k,
    {
        let ghost prefix = jv.take(k + 1);
        assert(prefix.drop_last() =~= jv.take(k as int));
        assert(prefix.last() == jv[k as int]);
        assert(pred(jv[k as int]) == flags@[k as int]);
        let ghost r_before = r@;
        if flags[k] {
            r.push(&joins[k]);
            assert(join_refs_view(r@) =~= join_refs_view(r_before).push(jv[k as int]));
        }
        k = k + 1;
        proof {
            reveal(Seq::filter);
        }
        assert(join_refs_view(r@) =~= jv.take(k as int).filter(pred));
    }
    assert(jv.take(n as int) =~= jv);
    r
}


/// A declared join is emitted exactly when its table is needed: a selected
/// dimension or metric names it as its source table, or the ON text of an
/// emitted join mentions it (all ignoring ASCII case); and every emitted table
/// is reached from the named source tables in finitely many such steps.
pub proof fn lemma_join_inclusion(joins: Seq<JoinView>, dims: Seq<FieldView>, mets: Seq<FieldView>)
    ensures
        ({
            let direct = direct_tables(dims, mets);
            let emitted = needed_joins(joins, dims, mets);
            &&& forall|k: int|
                0 <= k < joins.len() ==> (emitted.contains(#[trigger] joins[k]) <==> required(
                    joins,
                    direct,
                    lower(joins[k].table),
                ))
            &&& forall|k: int|
                0 <= k < joins.len() && direct.contains(lower(joins[k].table)) ==> emitted.contains(
                    #[trigger] joins[k],
                )
            &&& forall|a: int, k: int|
                0 <= a < joins.len() && 0 <= k < joins.len() && emitted.contains(joins[a])
                    && #[trigger] refers(joins, a, k) ==> emitted.contains(joins[k])
        }),
{
    let direct = direct_tables(dims, mets);
    let pred = |j: JoinView| required(joins, direct, lower(j.table));
    let emitted = joins.filter(pred);
    assert forall|k: int| 0 <= k < joins.len() implies (emitted.contains(#[trigger] joins[k]) <==> required(
        joins,
        direct,
        lower(joins[k].table),
    )) by {
        if required(joins, direct, lower(joins[k].table)) {
            joins.lemma_filter_contains(pred, k);
        }
        if emitted.contains(joins[k]) {
            let i = choose|i: int| 0 <= i < emitted.len() && emitted[i] == joins[k];
            joins.lemma_filter_pred(pred, i);
        }
    }
    assert forall|k: int|
        0 <= k < joins.len() && direct.contains(lower(joins[k].table)) implies emitted.contains(
        #[trigger] joins[k],
    ) by {
        assert(reach(joins, direct, 0).contains(lower(joins[k].table)));
    }
    assert forall|a: int, k: int|
        0 <= a < joins.len() && 0 <= k < joins.len() && emitted.contains(joins[a])
            && #[trigger] refers(joins, a, k) implies emitted.contains(joins[k]) by {
        assert(required(joins, direct, lower(joins[a].table)));
        let n = choose|n: nat| #[trigger] reach(joins, direct, n).contains(lower(joins[a].table));
        assert(reach(joins, direct, n + 1).contains(lower(joins[k].table)));
    }
}

} // verus!
