//! Selecting filter nodes from the decoded plan tree and projecting each
//! into a row record.
//!
//! The tree is expected to be a top-level mapping from phase-thread label to
//! node.  A node qualifies as a filter node when it is itself a mapping that
//! holds, under the literal key `"values"` (quotes included), a nested
//! mapping with the literal key `"condition"`.  Every qualifying node must
//! then carry the literal `"op"`, `"rowCount"` and `"cumulativeCost"` keys;
//! a missing or ill-typed one aborts the whole extraction.  Row order is the
//! order of the decoded entry list.

use vstd::prelude::*;
use crate::PlanError;
use crate::cost::{cost_total_spec, num_trunc, num_trunc_spec, total_cost};
use crate::format::{thousands, thousands_spec};
use crate::plan::{decode_plan, json_text_of, json_tree_of, render_value, unesc, PlanValue};
use vstd::string::StringExecFns;

verus! {

/// One projected filter row: the phase-thread label, the rendered operator
/// type, the rendered filter condition, and the formatted row count and
/// total cost.
#[derive(Debug, Clone, PartialEq, Eq)]
pub struct FilterRow {
    pub phase_thread: String,
    pub op_type: String,
    pub filter: String,
    pub rows: String,
    pub total_cost: String,
}

/// The mathematical image of a row: its five fields as character sequences.
pub struct RowSpec {
    pub phase_thread: Seq<char>,
    pub op_type: Seq<char>,
    pub filter: Seq<char>,
    pub rows: Seq<char>,
    pub total_cost: Seq<char>,
}

/// The mathematical image of a `PlanError`.
pub enum ErrSpec {
    Malformed,
    Missing(Seq<char>),
    Cost,
}

pub open spec fn row_view(r: FilterRow) -> RowSpec {
    RowSpec {
        phase_thread: r.phase_thread@,
        op_type: r.op_type@,
        filter: r.filter@,
        rows: r.rows@,
        total_cost: r.total_cost@,
    }
}

pub open spec fn rows_view(rows: Seq<FilterRow>) -> Seq<RowSpec> {
    rows.map_values(|r: FilterRow| row_view(r))
}

pub open spec fn err_view(e: PlanError) -> ErrSpec {
    match e {
        PlanError::MalformedPlan => ErrSpec::Malformed,
        PlanError::MissingField(s) => ErrSpec::Missing(s@),
        PlanError::CostParse => ErrSpec::Cost,
    }
}

/// The value under the first entry whose key reads exactly `key`, if any.
pub open spec fn lookup(es: Seq<(String, PlanValue)>, key: Seq<char>) -> Option<PlanValue>
    decreases es.len(),
{
    if es.len() == 0 {
        Option::None
    } else if es[0].0@ == key {
        Option::Some(es[0].1)
    } else {
        lookup(es.skip(1), key)
    }
}

/// A node qualifies as a filter node when it is a mapping holding, under
/// the doubled-quote literal `values` key, a nested mapping with the
/// doubled-quote literal `condition` key.
pub open spec fn qualifies(node: PlanValue) -> bool {
    match node {
        PlanValue::Obj(es) => match lookup(es@, "\"values\""@) {
            Option::Some(PlanValue::Obj(ves)) => lookup(ves@, "\"condition\""@) is Some,
            _ => false,
        },
        _ => false,
    }
}

/// The row a qualifying node projects to, or the first error: a missing or
/// ill-typed `op`, `rowCount` or `cumulativeCost` field (in that order), a
/// cost vector that fails to parse, and then the nested pair itself.
pub open spec fn row_of(key: Seq<char>, node: PlanValue) -> Result<RowSpec, ErrSpec> {
    match node {
        PlanValue::Obj(es) => match lookup(es@, "\"op\""@) {
            Option::None => Result::Err(ErrSpec::Missing("op"@)),
            Option::Some(opv) => match lookup(es@, "\"rowCount\""@) {
                Option::Some(PlanValue::Num(raw)) => match num_trunc_spec(raw@) {
                    Option::None => Result::Err(ErrSpec::Missing("rowCount"@)),
                    Option::Some(rc) => match lookup(es@, "\"cumulativeCost\""@) {
                        Option::Some(PlanValue::Str(cc)) => match cost_total_spec(cc@) {
                            Option::None => Result::Err(ErrSpec::Cost),
                            Option::Some(cv) => match lookup(es@, "\"values\""@) {
                                Option::Some(PlanValue::Obj(ves)) => match lookup(
                                    ves@,
                                    "\"condition\""@,
                                ) {
                                    Option::Some(condv) => Result::Ok(
                                        RowSpec {
                                            phase_thread: key,
                                            op_type: json_text_of(opv),
                                            filter: json_text_of(condv),
                                            rows: thousands_spec(rc),
                                            total_cost: thousands_spec(cv),
                                        },
                                    ),
                                    Option::None => Result::Err(ErrSpec::Missing("condition"@)),
                                },
                                _ => Result::Err(ErrSpec::Missing("values"@)),
                            },
                        },
                        _ => Result::Err(ErrSpec::Missing("cumulativeCost"@)),
                    },
                },
                _ => Result::Err(ErrSpec::Missing("rowCount"@)),
            },
        },
        _ => Result::Err(ErrSpec::Missing("op"@)),
    }
}

/// The rows of a top-level entry list, in entry order: qualifying nodes are
/// projected, the rest are skipped, and the first error aborts the whole
/// extraction.
pub open spec fn rows_of_entries(es: Seq<(String, PlanValue)>) -> Result<Seq<RowSpec>, ErrSpec>
    decreases es.len(),
{
    if es.len() == 0 {
        Result::Ok(Seq::empty())
    } else if qualifies(es[0].1) {
        match row_of(es[0].0@, es[0].1) {
            Result::Err(e) => Result::Err(e),
            Result::Ok(r) => match rows_of_entries(es.skip(1)) {
                Result::Err(e) => Result::Err(e),
                Result::Ok(rs) => Result::Ok(seq![r] + rs),
            },
        }
    } else {
        rows_of_entries(es.skip(1))
    }
}

/// What `extract_rows` returns: the rows of a top-level mapping, and
/// `Malformed` where the tree is not a mapping at all.
pub open spec fn extract_spec(t: PlanValue) -> Result<Seq<RowSpec>, ErrSpec> {
    match t {
        PlanValue::Obj(es) => rows_of_entries(es@),
        _ => Result::Err(ErrSpec::Malformed),
    }
}

/// What `plan_report` returns: decode, then extract.
pub open spec fn report_spec(p: Seq<char>) -> Result<Seq<RowSpec>, ErrSpec> {
    match json_tree_of(unesc(p)) {
        Option::None => Result::Err(ErrSpec::Malformed),
        Option::Some(t) => extract_spec(t),
    }
}

proof fn lemma_lookup_skip(es: Seq<(String, PlanValue)>, key: Seq<char>, i: int)
    requires
        0 <= i <= es.len(),
        forall|k: int| 0 <= k < i ==> (#[trigger] es[k]).0@ != key,
    ensures
        lookup(es, key) == lookup(es.skip(i), key),
    decreases i,
{
    if i == 0 {
        assert(es.skip(0) =~= es);
    } else {
        assert(es[0].0@ != key);
        lemma_lookup_skip(es.skip(1), key, i - 1);
        assert(es.skip(1).skip(i - 1) =~= es.skip(i));
    }
}

/// Looks a key up in an entry list by exact text, returning the first
/// match.
#[verifier::loop_isolation(false)]
fn obj_get<'a>(es: &'a Vec<(String, PlanValue)>, key: &String) -> (r: Option<&'a PlanValue>)
    ensures
        match lookup(es@, key@) {
            Option::Some(v) => r matches Some(p) && *p == v,
            Option::None => r is None,
        },
{
    let mut i: usize = 0;
    while i < es.len()
        invariant
            i <= es@.len(),
            forall|k: int| 0 <= k < i ==> (#[trigger] es@[k]).0@ != key@,
        decreases es@.len() - i,
    {
        let entry = &es[i];
        if entry.0 == *key {
            proof {
                lemma_lookup_skip(es@, key@, i as int);
                assert(es@.skip(i as int)[0] == es@[i as int]);
            }
            return Some(&es[i].1);
        }
        i = i + 1;
    }
    proof {
        lemma_lookup_skip(es@, key@, es@.len() as int);
        assert(es@.skip(es@.len() as int).len() == 0);
    }
    None
}

/// Walks the top-level entries of the decoded tree and projects every
/// qualifying node into a `FilterRow`, in entry order; the first missing
/// field or unparseable cost vector aborts the run, and a tree that is not
/// a mapping is `MalformedPlan`.
#[verifier::loop_isolation(false)]
#[verifier::rlimit(100)]
pub fn extract_rows(tree: &PlanValue) -> (r: Result<Vec<FilterRow>, PlanError>)
    ensures
        match r {
            Result::Ok(rows) => extract_spec(*tree) == Result::Ok::<Seq<RowSpec>, ErrSpec>(
                rows_view(rows@),
            ),
            Result::Err(e) => extract_spec(*tree) == Result::Err::<Seq<RowSpec>, ErrSpec>(
                err_view(e),
            ),
        },
{
    let es = match tree {
        PlanValue::Obj(es) => es,
        _ => {
            return Err(PlanError::MalformedPlan);
        },
    };
    let k_values = String::from_str("\"values\"");
    let k_condition = String::from_str("\"condition\"");
    let k_op = String::from_str("\"op\"");
    let k_rowcount = String::from_str("\"rowCount\"");
    let k_cumcost = String::from_str("\"cumulativeCost\"");
    let mut out: Vec<FilterRow> = Vec::new();
    let mut i: usize = 0;
    proof {
        assert(es@.skip(0) =~= es@);
        assert(rows_view(out@) =~= Seq::<RowSpec>::empty());
    }
    while i < es.len()
        invariant
            i <= es@.len(),
            rows_of_entries(es@) == (match rows_of_entries(es@.skip(i as int)) {
                Result::Ok(rs) => Result::Ok::<Seq<RowSpec>, ErrSpec>(rows_view(out@) + rs),
                Result::Err(e2) => Result::Err::<Seq<RowSpec>, ErrSpec>(e2),
            }),
        decreases es@.len() - i,
    {
        let entry = &es[i];
        let ghost key = es@[i as int].0@;
        let ghost node = es@[i as int].1;
        proof {
            assert(es@.skip(i as int)[0] == es@[i as int]);
            assert(es@.skip(i as int).skip(1) =~= es@.skip((i + 1) as int));
        }
        match &entry.1 {
            PlanValue::Obj(nes) => {
                match obj_get(nes, &k_values) {
                    Option::Some(vv) => {
                        match vv {
                            PlanValue::Obj(ves) => {
                                match obj_get(ves, &k_condition) {
                                    Option::Some(condv) => {
                                        proof {
                                            assert(qualifies(node));
                                        }
                                        let opv = match obj_get(nes, &k_op) {
                                            Option::Some(v) => v,
                                            Option::None => {
                                                return Err(
                                                    PlanError::MissingField(String::from_str("op")),
                                                );
                                            },
                                        };
                                        let rc: i64 = match obj_get(nes, &k_rowcount) {
                                            Option::Some(v) => match v {
                                                PlanValue::Num(raw) => match num_trunc(
                                                    raw.as_str(),
                                                ) {
                                                    Option::Some(x) => x,
                                                    Option::None => {
                                                        return Err(
                                                            PlanError::MissingField(
                                                                String::from_str("rowCount"),
                                                            ),
                                                        );
                                                    },
                                                },
                                                _ => {
                                                    return Err(
                                                        PlanError::MissingField(
                                                            String::from_str("rowCount"),
                                                        ),
                                                    );
                                                },
                                            },
                                            Option::None => {
                                                return Err(
                                                    PlanError::MissingField(
                                                        String::from_str("rowCount"),
                                                    ),
                                                );
                                            },
                                        };
                                        let cv: i64 = match obj_get(nes, &k_cumcost) {
                                            Option::Some(v) => match v {
                                                PlanValue::Str(cc) => match total_cost(
                                                    cc.as_str(),
                                                ) {
                                                    Result::Ok(c) => c,
                                                    Result::Err(e) => {
                                                        return Err(e);
                                                    },
                                                },
                                                _ => {
                                                    return Err(
                                                        PlanError::MissingField(
                                                            String::from_str("cumulativeCost"),
                                                        ),
                                                    );
                                                },
                                            },
                                            Option::None => {
                                                return Err(
                                                    PlanError::MissingField(
                                                        String::from_str("cumulativeCost"),
                                                    ),
                                                );
                                            },
                                        };
                                        let row = FilterRow {
                                            phase_thread: entry.0.clone(),
                                            op_type: render_value(opv),
                                            filter: render_value(condv),
                                            rows: thousands(rc),
                                            total_cost: thousands(cv),
                                        };
                                        proof {
                                            assert(row_of(key, node) == Result::Ok::<
                                                RowSpec,
                                                ErrSpec,
                                            >(row_view(row)));
                                            assert(rows_view(out@.push(row)) =~= rows_view(
                                                out@,
                                            ).push(row_view(row)));
                                        }
                                        let ghost old_out = out@;
                                        out.push(row);
                                        proof {
                                            if rows_of_entries(
                                                es@.skip((i + 1) as int),
                                            ) is Ok {
                                                let rs = rows_of_entries(
                                                    es@.skip((i + 1) as int),
                                                )->Ok_0;
                                                assert(rows_view(old_out) + (seq![
                                                    row_view(row),
                                                ] + rs) =~= rows_view(old_out.push(row)) + rs);
                                            }
                                        }
                                    },
                                    Option::None => {
                                        proof {
                                            assert(!qualifies(node));
                                        }
                                    },
                                }
                            },
                            _ => {
                                proof {
                                    assert(!qualifies(node));
                                }
                            },
                        }
                    },
                    Option::None => {
                        proof {
                            assert(!qualifies(node));
                        }
                    },
                }
            },
            _ => {
                proof {
                    assert(!qualifies(node));
                }
            },
        }
        i = i + 1;
    }
    proof {
        assert(es@.skip(es@.len() as int).len() == 0);
        assert(rows_of_entries(es@.skip(es@.len() as int)) == Result::Ok::<Seq<RowSpec>, ErrSpec>(
            Seq::<RowSpec>::empty(),
        ));
        assert(rows_view(out@) + Seq::<RowSpec>::empty() =~= rows_view(out@));
    }
    Ok(out)
}

/// Runs the whole pipeline on a plan payload: unescape, parse, and extract
/// the filter rows.  The result is a function of the payload text alone, so
/// two runs on the same input return the same rows.
pub fn plan_report(payload: &str) -> (r: Result<Vec<FilterRow>, PlanError>)
    ensures
        match r {
            Result::Ok(rows) => report_spec(payload@) == Result::Ok::<Seq<RowSpec>, ErrSpec>(
                rows_view(rows@),
            ),
            Result::Err(e) => report_spec(payload@) == Result::Err::<Seq<RowSpec>, ErrSpec>(
                err_view(e),
            ),
        },
{
    let tree = match decode_plan(payload) {
        Result::Ok(t) => t,
        Result::Err(e) => {
            return Err(e);
        },
    };
    extract_rows(&tree)
}

} // verus!
