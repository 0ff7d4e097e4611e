//! An interpreter for a spatially-laid-out dataflow language: a program is
//! plain text on a two-dimensional grid, stations are bracketed identifiers
//! placed anywhere on it, and the geometric adjacency of stations defines the
//! flow graph along which pallets of data travel until a terminal station is
//! reached.
//!
//! `preprocessor` discovers the stations in the text, `linker` computes each
//! station's neighbors on the grid and wires the graph, `runtime` schedules
//! and fires the stations, and `builtins` holds the registry of station
//! behaviors. `run` ties the stages together.

pub mod builtins;
pub mod error;
pub mod linker;
pub mod preprocessor;
pub mod runtime;
pub mod station;

use vstd::prelude::*;

use crate::builtins::{builtins, is_builtin_namespace};
use crate::error::{Error, ErrorType};
use crate::preprocessor::{
    discovery_accepts, doc_markers_spec, entry_count, first_entry_from, first_unresolved,
    graph_matches, lemma_graph_matches_congruence, lemma_registry_congruence, line_views, process,
    split_lines, split_lines_spec, string_views,
};
use crate::linker::lemma_links_concat_congruence;
use crate::preprocessor::{is_entry_marker, station_matches_marker};
use crate::runtime::{
    engine_outcome, execute, lemma_engine_outcome_congruence, same_engine_model, RunOutcome,
};
use crate::station::{SourceLocation, Station, StationType};

verus! {

/// Interprets a program: splits the source text into lines, discovers and
/// wires its stations against the built-in station types, and runs it. A
/// source that discovery rejects reports that discovery error unchanged,
/// span and kind; an accepted source's result is exactly what the
/// deterministic scheduling policy (`engine_outcome`) assigns to the graph
/// discovery and wiring produce for it, so two runs of one source agree.
pub fn run(src: &String) -> (r: Result<(), Error>)
    ensures
        forall|gns: Seq<StationType>| #[trigger]
            is_builtin_namespace(gns) ==> match r {
                Ok(()) => {
                    &&& discovery_accepts(split_lines_spec(src@), gns)
                    &&& exists|sts: Seq<Station>, start: int|
                        #[trigger] graph_matches(split_lines_spec(src@), gns, sts, start)
                            && engine_outcome(sts, start) is Success
                },
                Err(e) => {
                    ||| {
                        &&& doc_markers_spec(split_lines_spec(src@)) matches Err(p)
                        &&& e.t == ErrorType::StructuralError
                        &&& e.loc.line == p.0 && e.loc.col == p.1 && e.loc.len == 1
                    }
                    ||| {
                        &&& doc_markers_spec(split_lines_spec(src@)) matches Ok(ms)
                        &&& first_unresolved(split_lines_spec(src@), ms, gns) matches Some(k)
                        &&& e.t == ErrorType::IdentifierError
                        &&& e.loc.line == ms[k].0 && e.loc.col == ms[k].1 && e.loc.len == ms[k].2
                    }
                    ||| {
                        &&& doc_markers_spec(split_lines_spec(src@)) matches Ok(ms)
                        &&& first_unresolved(split_lines_spec(src@), ms, gns) is None
                        &&& entry_count(split_lines_spec(src@), ms, gns) != 1
                        &&& e.t == ErrorType::StructuralError
                        &&& (entry_count(split_lines_spec(src@), ms, gns) == 0 ==> e.loc == (
                        SourceLocation { line: 0, col: 0, len: 0 }))
                        &&& (entry_count(split_lines_spec(src@), ms, gns) >= 2 ==> {
                            &&& first_entry_from(split_lines_spec(src@), ms, gns, 0) matches Some(
                                k1,
                            )
                            &&& first_entry_from(
                                split_lines_spec(src@),
                                ms,
                                gns,
                                k1 + 1,
                            ) matches Some(k2)
                            &&& e.loc.line == ms[k2].0 && e.loc.col == ms[k2].1 && e.loc.len
                                == ms[k2].2
                        })
                    }
                    ||| {
                        &&& discovery_accepts(split_lines_spec(src@), gns)
                        &&& exists|sts: Seq<Station>, start: int|
                            #[trigger] graph_matches(split_lines_spec(src@), gns, sts, start)
                                && (match engine_outcome(sts, start) {
                                RunOutcome::Success => false,
                                RunOutcome::Operand(loc) => e.t == ErrorType::OperandError
                                    && e.loc == loc,
                                RunOutcome::Deadlock => e.t == ErrorType::DeadlockError && e.loc
                                    == (SourceLocation { line: 0, col: 0, len: 0 }),
                            })
                    }
                },
            },
{
    let namespace = builtins();
    let owned = split_lines(src.as_str());
    let n = owned.len();
    let mut lines: Vec<&str> = Vec::new();
    let mut k: usize = 0;
    while k < n
        invariant
            n == owned@.len(),
            k <= n,
            lines@.len() == k,
            forall|x: int| 0 <= x < k ==> (#[trigger] lines@[x])@ == owned@[x]@,
        decreases n - k,
    {
        lines.push(owned[k].as_str());
        k = k + 1;
    }
    proof {
        assert(line_views(lines@) =~= string_views(owned@));
        assert(line_views(lines@) == split_lines_spec(src@));
    }
    let ghost ls = split_lines_spec(src@);
    let (mut stations, start_i) = match process(&lines, &namespace) {
        Ok(p) => p,
        Err(e) => {
            proof {
                assert forall|gns: Seq<StationType>| #[trigger] is_builtin_namespace(gns) implies ({
                    ||| {
                        &&& doc_markers_spec(ls) matches Err(p)
                        &&& e.t == ErrorType::StructuralError
                        &&& e.loc.line == p.0 && e.loc.col == p.1 && e.loc.len == 1
                    }
                    ||| {
                        &&& doc_markers_spec(ls) matches Ok(ms)
                        &&& first_unresolved(ls, ms, gns) matches Some(k)
                        &&& e.t == ErrorType::IdentifierError
                        &&& e.loc.line == ms[k].0 && e.loc.col == ms[k].1 && e.loc.len == ms[k].2
                    }
                    ||| {
                        &&& doc_markers_spec(ls) matches Ok(ms)
                        &&& first_unresolved(ls, ms, gns) is None
                        &&& entry_count(ls, ms, gns) != 1
                        &&& e.t == ErrorType::StructuralError
                        &&& (entry_count(ls, ms, gns) == 0 ==> e.loc == (SourceLocation {
                            line: 0,
                            col: 0,
                            len: 0,
                        }))
                        &&& (entry_count(ls, ms, gns) >= 2 ==> {
                            &&& first_entry_from(ls, ms, gns, 0) matches Some(k1)
                            &&& first_entry_from(ls, ms, gns, k1 + 1) matches Some(k2)
                            &&& e.loc.line == ms[k2].0 && e.loc.col == ms[k2].1 && e.loc.len
                                == ms[k2].2
                        })
                    }
                }) by {
                    if doc_markers_spec(ls) is Ok {
                        let ms = doc_markers_spec(ls)->Ok_0;
                        lemma_registry_congruence(ls, ms, namespace@, gns);
                        crate::preprocessor::lemma_first_entry_bounds(ls, ms, namespace@, 0);
                        if first_entry_from(ls, ms, namespace@, 0) is Some {
                            let k1 = first_entry_from(ls, ms, namespace@, 0)->Some_0;
                            crate::preprocessor::lemma_first_entry_bounds(ls, ms, namespace@, k1 + 1);
                        }
                    }
                }
            }
            return Err(e);
        },
    };
    let ghost sts_pre = stations@;
    proof {
        assert(graph_matches(ls, namespace@, sts_pre, start_i as int));
    }
    let outcome = execute(&mut stations, start_i);
    proof {
        assert forall|gns: Seq<StationType>| #[trigger] is_builtin_namespace(gns) implies ({
            &&& discovery_accepts(ls, gns)
            &&& graph_matches(ls, gns, sts_pre, start_i as int)
        }) by {
            let ms = doc_markers_spec(ls)->Ok_0;
            lemma_registry_congruence(ls, ms, namespace@, gns);
            lemma_graph_matches_congruence(ls, sts_pre, start_i as int, namespace@, gns);
        }
    }
    match outcome {
        Ok(()) => Ok(()),
        Err(e) => Err(e),
    }
}


/// A source determines its run's result: any two graphs matching one source
/// under registries of the built-in shape share the entry index and the
/// engine outcome, so with `run`'s contract two calls of `run` on equal
/// sources agree in kind and location.
pub proof fn lemma_run_is_deterministic(
    ls: Seq<Seq<char>>,
    gns1: Seq<StationType>,
    gns2: Seq<StationType>,
    sts1: Seq<Station>,
    sts2: Seq<Station>,
    s1: int,
    s2: int,
)
    requires
        is_builtin_namespace(gns1),
        is_builtin_namespace(gns2),
        graph_matches(ls, gns1, sts1, s1),
        graph_matches(ls, gns2, sts2, s2),
    ensures
        s1 == s2,
        engine_outcome(sts1, s1) == engine_outcome(sts2, s2),
{
    lemma_graph_matches_congruence(ls, sts1, s1, gns1, gns2);
    let ms = doc_markers_spec(ls)->Ok_0;
    if s1 < s2 {
        assert(is_entry_marker(ls, ms[s1], gns2));
        assert(!is_entry_marker(ls, ms[s1], gns2));
    }
    if s2 < s1 {
        assert(is_entry_marker(ls, ms[s2], gns2));
        assert(!is_entry_marker(ls, ms[s2], gns2));
    }
    let n = sts1.len() as int;
    assert forall|i: int|
        0 <= i < n implies (#[trigger] sts1[i]).loc == sts2[i].loc && sts1[i].modifiers
        == sts2[i].modifiers && sts1[i].logic.inputs == sts2[i].logic.inputs
        && sts1[i].logic.kind == sts2[i].logic.kind && sts1[i].logic.is_terminal
        == sts2[i].logic.is_terminal by {
        assert(station_matches_marker(sts1[i], ls, ms[i], gns2));
        assert(station_matches_marker(sts2[i], ls, ms[i], gns2));
    }
    assert(crate::linker::locs_of(sts1) =~= crate::linker::locs_of(sts2));
    lemma_links_concat_congruence(ls, sts1, sts2, n);
    assert forall|i: int| 0 <= i < n implies (#[trigger] sts1[i]).out_bays@
        == sts2[i].out_bays@ by {
        let l1 = crate::linker::station_links(ls, sts1, i);
        assert(crate::linker::station_links(ls, sts2, i) == l1);
        lemma_links_concat_congruence(ls, sts1, sts2, i);
        assert forall|j: int| 0 <= j < l1.len() implies (#[trigger] sts1[i].out_bays@[j])
            == sts2[i].out_bays@[j] by {
            assert((sts2[i].out_bays@[j]).0 as int == l1[j].0);
        }
        assert(sts1[i].out_bays@ =~= sts2[i].out_bays@);
    }
    assert forall|i: int| 0 <= i < n implies (#[trigger] sts1[i]).in_bays@
        == sts2[i].in_bays@ by {
        assert forall|b: int| 0 <= b < sts1[i].in_bays@.len() implies (
        #[trigger] sts1[i].in_bays@[b]) == sts2[i].in_bays@[b] by {
            assert(sts1[i].in_bays@[b] is None);
            assert(sts2[i].in_bays@[b] is None);
        }
        assert(sts1[i].in_bays@ =~= sts2[i].in_bays@);
    }
    assert(same_engine_model(sts1, sts2));
    lemma_engine_outcome_congruence(sts1, sts2, s1);
}

} // verus!
