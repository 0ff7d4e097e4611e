use vstd::prelude::*;

use crate::builtins::{apply, apply_spec};
use crate::error::{Error, ErrorType};
use crate::linker::wf_graph;
use crate::station::{Pallet, SourceLocation, Station};

verus! {

/// The bound on scheduling rounds: a run still going after this many rounds
/// is reported as a deadlock instead of looping without end.
pub const MAX_ROUNDS: usize = 100000;

/// How a run ends: a terminal station fired; a station could not act on its
/// input pallets (carrying that station's span); or no station could make
/// progress before the round bound.
pub enum RunOutcome {
    Success,
    Operand(SourceLocation),
    Deadlock,
}

/// What one scan over the stations produces: an ended run, or the bays,
/// entry flag and fired flag the next round starts from.
pub enum ScanStep {
    Finished(RunOutcome),
    Continue(Seq<Seq<Option<Pallet>>>, bool, bool),
}

/// The contents of every station's input bays: the one part of the graph the
/// engine mutates.
pub open spec fn bays_view(sts: Seq<Station>) -> Seq<Seq<Option<Pallet>>> {
    sts.map(|_i: int, s: Station| s.in_bays@)
}

/// A station is ready when it consumes at least one pallet and every input
/// bay its arity requires holds one.
pub open spec fn ready_model(skel: Seq<Station>, bays: Seq<Seq<Option<Pallet>>>, i: int) -> bool {
    &&& skel[i].logic.inputs > 0
    &&& bays[i].len() >= skel[i].logic.inputs
    &&& forall|b: int| 0 <= b < skel[i].logic.inputs ==> bays[i][b] is Some
}

/// Whether every input bay that station `i`'s out-bays point at is free, so
/// a firing's outputs can all be deposited.
pub open spec fn free_model(skel: Seq<Station>, bays: Seq<Seq<Option<Pallet>>>, i: int) -> bool {
    forall|j: int|
        0 <= j < skel[i].out_bays@.len() ==> bays[(#[trigger] skel[i].out_bays@[j]).0 as int][
            skel[i].out_bays@[j].1 as int
        ] is None
}

/// The pallets station `i` consumes when it fires.
pub open spec fn inputs_model(skel: Seq<Station>, bays: Seq<Seq<Option<Pallet>>>, i: int) -> Seq<
    Pallet,
> {
    Seq::new(skel[i].logic.inputs as nat, |b: int| bays[i][b]->Some_0)
}

/// The bays after station `i` emptied its first `arity` bays.
pub open spec fn cleared_model(bays: Seq<Seq<Option<Pallet>>>, i: int, arity: int) -> Seq<
    Seq<Option<Pallet>>,
> {
    bays.update(
        i,
        Seq::new(
            bays[i].len(),
            |b: int|
                if b < arity {
                    None
                } else {
                    bays[i][b]
                },
        ),
    )
}

/// The bays after depositing `p` into the target bay `tb`.
pub open spec fn deposit_one(bays: Seq<Seq<Option<Pallet>>>, tb: (usize, usize), p: Pallet) -> Seq<
    Seq<Option<Pallet>>,
> {
    bays.update(tb.0 as int, bays[tb.0 as int].update(tb.1 as int, Some(p)))
}

/// The bays after handing `p` to each target bay, in out-bay order.
pub open spec fn deposit_model(
    bays: Seq<Seq<Option<Pallet>>>,
    outs: Seq<(usize, usize)>,
    p: Pallet,
) -> Seq<Seq<Option<Pallet>>>
    decreases outs.len(),
{
    if outs.len() == 0 {
        bays
    } else {
        deposit_model(deposit_one(bays, outs[0], p), outs.drop_first(), p)
    }
}

proof fn lemma_deposit_model_push(
    bays: Seq<Seq<Option<Pallet>>>,
    outs: Seq<(usize, usize)>,
    x: (usize, usize),
    p: Pallet,
)
    ensures
        deposit_model(bays, outs.push(x), p) == deposit_one(deposit_model(bays, outs, p), x, p),
    decreases outs.len(),
{
    if outs.len() == 0 {
        assert(outs.push(x)[0] == x);
        assert(outs.push(x).drop_first() =~= Seq::<(usize, usize)>::empty());
        assert(deposit_model(bays, outs, p) == bays);
        assert(deposit_model(deposit_one(bays, x, p), Seq::<(usize, usize)>::empty(), p)
            == deposit_one(bays, x, p));
        assert(deposit_model(bays, outs.push(x), p) == deposit_one(bays, x, p));
    } else {
        assert(outs.push(x)[0] == outs[0]);
        assert(outs.push(x).drop_first() =~= outs.drop_first().push(x));
        lemma_deposit_model_push(deposit_one(bays, outs[0], p), outs.drop_first(), x, p);
        assert(deposit_model(bays, outs.push(x), p) == deposit_model(
            deposit_one(bays, outs[0], p),
            outs.drop_first().push(x),
            p,
        ));
        assert(deposit_model(bays, outs, p) == deposit_model(
            deposit_one(bays, outs[0], p),
            outs.drop_first(),
            p,
        ));
    }
}

proof fn lemma_bays_view_index(sts: Seq<Station>)
    ensures
        forall|t: int| 0 <= t < sts.len() ==> #[trigger] bays_view(sts)[t] == sts[t].in_bays@,
{
}

/// One scan over the stations from index `i` on, firing as the scheduling
/// policy prescribes: the entry station is ready while `ep` holds, any other
/// station when its required bays are filled; a ready station fires only if
/// every target bay is free; firing a terminal ends the run, a behavior that
/// cannot act on its pallets ends it with that station's span.
pub open spec fn scan_model(
    skel: Seq<Station>,
    bays: Seq<Seq<Option<Pallet>>>,
    ep: bool,
    fired: bool,
    start: int,
    i: int,
) -> ScanStep
    decreases skel.len() - i
        when 0 <= i <= skel.len()
{
    if i >= skel.len() {
        ScanStep::Continue(bays, ep, fired)
    } else {
        let entry_turn = ep && i == start;
        if entry_turn || ready_model(skel, bays, i) {
            if skel[i].logic.is_terminal {
                ScanStep::Finished(RunOutcome::Success)
            } else if free_model(skel, bays, i) {
                let inputs = if entry_turn {
                    Seq::<Pallet>::empty()
                } else {
                    inputs_model(skel, bays, i)
                };
                let bays1 = if entry_turn {
                    bays
                } else {
                    cleared_model(bays, i, skel[i].logic.inputs as int)
                };
                match apply_spec(skel[i].logic.kind, inputs) {
                    None => ScanStep::Finished(RunOutcome::Operand(skel[i].loc)),
                    Some(p) => scan_model(
                        skel,
                        deposit_model(bays1, skel[i].out_bays@, p),
                        if entry_turn {
                            false
                        } else {
                            ep
                        },
                        true,
                        start,
                        i + 1,
                    ),
                }
            } else {
                scan_model(skel, bays, ep, fired, start, i + 1)
            }
        } else {
            scan_model(skel, bays, ep, fired, start, i + 1)
        }
    }
}

/// Up to `fuel` scheduling rounds: a round in which nothing fires, or an
/// exhausted round bound, is a deadlock.
pub open spec fn rounds_model(
    skel: Seq<Station>,
    bays: Seq<Seq<Option<Pallet>>>,
    ep: bool,
    start: int,
    fuel: nat,
) -> RunOutcome
    decreases fuel,
{
    if fuel == 0 {
        RunOutcome::Deadlock
    } else {
        match scan_model(skel, bays, ep, false, start, 0) {
            ScanStep::Finished(o) => o,
            ScanStep::Continue(bays2, ep2, fired) => if !fired {
                RunOutcome::Deadlock
            } else {
                rounds_model(skel, bays2, ep2, start, (fuel - 1) as nat)
            },
        }
    }
}

/// The outcome the deterministic scheduling policy assigns to a wired graph:
/// ascending-index round scans from the graph's starting bays, with the
/// entry station ready at first, bounded by `MAX_ROUNDS` rounds.
pub open spec fn engine_outcome(skel: Seq<Station>, start: int) -> RunOutcome {
    rounds_model(skel, bays_view(skel), true, start, MAX_ROUNDS as nat)
}

/// A station is ready when it consumes at least one pallet and every input
/// bay its arity requires holds one.
pub open spec fn station_ready(s: Station) -> bool {
    &&& s.logic.inputs > 0
    &&& s.in_bays@.len() >= s.logic.inputs
    &&& forall|b: int| 0 <= b < s.logic.inputs ==> s.in_bays@[b] is Some
}

/// Whether every input bay that station `i`'s out-bays point at is free.
pub open spec fn targets_free_spec(sts: Seq<Station>, i: int) -> bool {
    forall|j: int|
        0 <= j < sts[i].out_bays@.len() ==> sts[(#[trigger] sts[i].out_bays@[j]).0 as int].in_bays@[
            sts[i].out_bays@[j].1 as int
        ] is None
}

/// The graph's station skeleton is unchanged: only the contents of input
/// bays may differ.
pub open spec fn same_skeleton(a: Seq<Station>, b: Seq<Station>) -> bool {
    &&& a.len() == b.len()
    &&& forall|x: int|
        0 <= x < a.len() ==> (#[trigger] a[x]).loc == b[x].loc && a[x].logic == b[x].logic
            && a[x].modifiers == b[x].modifiers && a[x].out_bays == b[x].out_bays
            && a[x].in_bays@.len() == b[x].in_bays@.len()
}

/// Whether station `i` is ready this round.
fn check_ready(stations: &Vec<Station>, i: usize) -> (r: bool)
    requires
        i < stations@.len(),
    ensures
        r == station_ready(stations@[i as int]),
{
    let arity = stations[i].logic.inputs;
    if arity == 0 {
        return false;
    }
    if stations[i].in_bays.len() < arity {
        return false;
    }
    let mut b: usize = 0;
    while b < arity
        invariant
            i < stations@.len(),
            arity == stations@[i as int].logic.inputs,
            stations@[i as int].in_bays@.len() >= arity,
            b <= arity,
            forall|x: int| 0 <= x < b ==> stations@[i as int].in_bays@[x] is Some,
        decreases arity - b,
    {
        if stations[i].in_bays[b].is_none() {
            return false;
        }
        b = b + 1;
    }
    true
}

/// Whether every target bay of station `i` is free.
fn targets_free(stations: &Vec<Station>, i: usize) -> (r: bool)
    requires
        wf_graph(stations@),
        i < stations@.len(),
    ensures
        r == targets_free_spec(stations@, i as int),
{
    let m = stations[i].out_bays.len();
    let mut j: usize = 0;
    while j < m
        invariant
            wf_graph(stations@),
            i < stations@.len(),
            m == stations@[i as int].out_bays@.len(),
            j <= m,
            forall|x: int|
                0 <= x < j ==> stations@[(#[trigger] stations@[i as int].out_bays@[x]).0 as int].in_bays@[
                    stations@[i as int].out_bays@[x].1 as int
                ] is None,
        decreases m - j,
    {
        let tb = stations[i].out_bays[j];
        if stations[tb.0].in_bays[tb.1].is_some() {
            return false;
        }
        j = j + 1;
    }
    true
}

/// Runs the wired program exactly as `engine_outcome` prescribes: rounds
/// scan the stations in ascending index and fire each ready station whose
/// target bays are all free, consuming its input pallets and depositing its
/// result pallet into every out-bay. The entry station is ready once at the
/// start regardless of its bays. Firing a terminal station ends the run
/// successfully; a round in which nothing fires, or exhaustion of the round
/// bound, reports a deadlock; a station behavior that cannot act on its
/// input pallets reports an operand error carrying that station's span.
pub fn execute(stations: &mut Vec<Station>, start_i: usize) -> (r: Result<(), Error>)
    requires
        wf_graph(old(stations)@),
        start_i < old(stations)@.len(),
    ensures
        same_skeleton(final(stations)@, old(stations)@),
        wf_graph(final(stations)@),
        match r {
            Ok(()) => engine_outcome(old(stations)@, start_i as int) is Success,
            Err(e) => match engine_outcome(old(stations)@, start_i as int) {
                RunOutcome::Success => false,
                RunOutcome::Operand(loc) => e.t == ErrorType::OperandError && e.loc == loc,
                RunOutcome::Deadlock => e.t == ErrorType::DeadlockError && e.loc == (
                SourceLocation { line: 0, col: 0, len: 0 }),
            },
        },
        r is Ok ==> exists|i: int|
            0 <= i < old(stations)@.len() && (#[trigger] old(stations)@[i]).logic.is_terminal,
{
    let ghost skel = old(stations)@;
    let n = stations.len();
    let mut entry_pending = true;
    let mut round: usize = 0;
    while round < MAX_ROUNDS
        invariant
            n == stations@.len(),
            start_i < n,
            wf_graph(stations@),
            same_skeleton(stations@, skel),
            skel == old(stations)@,
            round <= MAX_ROUNDS,
            engine_outcome(skel, start_i as int) == rounds_model(
                skel,
                bays_view(stations@),
                entry_pending,
                start_i as int,
                (MAX_ROUNDS - round) as nat,
            ),
        decreases MAX_ROUNDS - round,
    {
        let ghost round_bays = bays_view(stations@);
        let ghost round_ep = entry_pending;
        let ghost fuel = (MAX_ROUNDS - round) as nat;
        let mut fired_any = false;
        let mut i: usize = 0;
        while i < n
            invariant
                n == stations@.len(),
                start_i < n,
                i <= n,
                wf_graph(stations@),
                same_skeleton(stations@, skel),
                skel == old(stations)@,
                round < MAX_ROUNDS,
                fuel == (MAX_ROUNDS - round) as nat,
                engine_outcome(skel, start_i as int) == rounds_model(
                    skel,
                    round_bays,
                    round_ep,
                    start_i as int,
                    fuel,
                ),
                scan_model(skel, round_bays, round_ep, false, start_i as int, 0) == scan_model(
                    skel,
                    bays_view(stations@),
                    entry_pending,
                    fired_any,
                    start_i as int,
                    i as int,
                ),
            decreases n - i,
        {
            let ghost pre = stations@;
            let ghost pre_bays = bays_view(pre);
            proof {
                lemma_bays_view_index(pre);
            }
            let is_entry_turn = entry_pending && i == start_i;
            let ready = if is_entry_turn {
                true
            } else {
                check_ready(stations, i)
            };
            proof {
                assert(ready == ((entry_pending && i as int == start_i as int) || ready_model(
                    skel,
                    pre_bays,
                    i as int,
                )));
            }
            if ready {
                if stations[i].logic.is_terminal {
                    proof {
                        assert(scan_model(
                            skel,
                            pre_bays,
                            entry_pending,
                            fired_any,
                            start_i as int,
                            i as int,
                        ) == ScanStep::Finished(RunOutcome::Success));
                        assert(engine_outcome(skel, start_i as int) is Success);
                        assert(skel[i as int].logic.is_terminal);
                    }
                    return Ok(());
                }
                let free = targets_free(stations, i);
                proof {
                    assert(free == free_model(skel, pre_bays, i as int));
                }
                if free {
                    // Consume the input pallets this firing needs.
                    let arity = stations[i].logic.inputs;
                    let mut inputs: Vec<Pallet> = Vec::new();
                    if !is_entry_turn {
                        let mut b: usize = 0;
                        while b < arity
                            invariant
                                n == stations@.len(),
                                i < n,
                                b <= arity,
                                stations@ == pre,
                                arity == stations@[i as int].logic.inputs,
                                station_ready(stations@[i as int]),
                                inputs@ =~= inputs_model(skel, pre_bays, i as int).take(b as int),
                                same_skeleton(stations@, skel),
                                skel == old(stations)@,
                                pre_bays == bays_view(pre),
                            decreases arity - b,
                        {
                            let pv = stations[i].in_bays[b];
                            proof {
                                lemma_bays_view_index(pre);
                                assert(inputs_model(skel, pre_bays, i as int)[b as int]
                                    == pre_bays[i as int][b as int]->Some_0);
                            }
                            inputs.push(pv.unwrap());
                            proof {
                                assert(inputs@ =~= inputs_model(skel, pre_bays, i as int).take(
                                    b as int + 1,
                                ));
                            }
                            b = b + 1;
                        }
                        proof {
                            assert(inputs_model(skel, pre_bays, i as int).take(arity as int)
                                =~= inputs_model(skel, pre_bays, i as int));
                        }
                        let mut b2: usize = 0;
                        while b2 < arity
                            invariant
                                n == stations@.len(),
                                i < n,
                                b2 <= arity,
                                arity == stations@[i as int].logic.inputs,
                                stations@[i as int].in_bays@.len() >= arity,
                                wf_graph(stations@),
                                same_skeleton(stations@, skel),
                                skel == old(stations)@,
                                pre_bays == bays_view(pre),
                                pre.len() == n,
                                forall|t: int|
                                    0 <= t < n && t != i ==> stations@[t] == pre[t],
                                stations@[i as int].in_bays@ =~= Seq::new(
                                    pre[i as int].in_bays@.len(),
                                    |bb: int|
                                        if bb < b2 {
                                            None
                                        } else {
                                            pre[i as int].in_bays@[bb]
                                        },
                                ),
                                stations@[i as int].loc == pre[i as int].loc,
                                stations@[i as int].logic == pre[i as int].logic,
                                stations@[i as int].modifiers == pre[i as int].modifiers,
                                stations@[i as int].out_bays == pre[i as int].out_bays,
                            decreases arity - b2,
                        {
                            stations[i].in_bays.set(b2, None);
                            proof {
                                assert(stations@[i as int].in_bays@ =~= Seq::new(
                                    pre[i as int].in_bays@.len(),
                                    |bb: int|
                                        if bb < b2 + 1 {
                                            None
                                        } else {
                                            pre[i as int].in_bays@[bb]
                                        },
                                ));
                            }
                            b2 = b2 + 1;
                        }
                    }
                    let ghost bays1 = if is_entry_turn {
                        pre_bays
                    } else {
                        cleared_model(pre_bays, i as int, arity as int)
                    };
                    proof {
                        lemma_bays_view_index(stations@);
                        lemma_bays_view_index(pre);
                        if !is_entry_turn {
                            assert(stations@[i as int].in_bays@ =~= cleared_model(
                                pre_bays,
                                i as int,
                                arity as int,
                            )[i as int]);
                        }
                        assert(bays_view(stations@) =~= bays1);
                        assert(inputs@ == (if is_entry_turn {
                            Seq::<Pallet>::empty()
                        } else {
                            inputs_model(skel, pre_bays, i as int)
                        }));
                    }
                    match apply(stations[i].logic.kind, &inputs) {
                        None => {
                            let loc = stations[i].loc;
                            proof {
                                assert(scan_model(
                                    skel,
                                    pre_bays,
                                    entry_pending,
                                    fired_any,
                                    start_i as int,
                                    i as int,
                                ) == ScanStep::Finished(
                                    RunOutcome::Operand(skel[i as int].loc),
                                ));
                                assert(loc == skel[i as int].loc);
                            }
                            return Err(
                                Error::new(
                                    ErrorType::OperandError,
                                    loc,
                                    "station cannot act on the pallets in its bays",
                                ),
                            );
                        },
                        Some(p) => {
                            // Hand the result to every out-bay's target bay.
                            let ghost mid = stations@;
                            let ghost outs = skel[i as int].out_bays@;
                            let ob = stations[i].out_bays.len();
                            proof {
                                assert(stations@[i as int].out_bays@ == outs);
                                assert(ob == outs.len());
                            }
                            let mut j: usize = 0;
                            while j < ob
                                invariant
                                    n == stations@.len(),
                                    i < n,
                                    j <= ob,
                                    wf_graph(stations@),
                                    same_skeleton(stations@, skel),
                                    skel == old(stations)@,
                                    outs == skel[i as int].out_bays@,
                                    stations@[i as int].out_bays@ == outs,
                                    ob == outs.len(),
                                    bays_view(stations@) =~~= deposit_model(
                                        bays_view(mid),
                                        outs.take(j as int),
                                        p,
                                    ),
                                decreases ob - j,
                            {
                                let tb = stations[i].out_bays[j];
                                let ghost before = stations@;
                                stations[tb.0].in_bays.set(tb.1, Some(p));
                                proof {
                                    lemma_bays_view_index(before);
                                    lemma_bays_view_index(stations@);
                                    assert(bays_view(stations@) =~~= deposit_one(
                                        bays_view(before),
                                        tb,
                                        p,
                                    ));
                                    assert(outs.take(j as int + 1) =~= outs.take(j as int).push(
                                        outs[j as int],
                                    ));
                                    lemma_deposit_model_push(
                                        bays_view(mid),
                                        outs.take(j as int),
                                        outs[j as int],
                                        p,
                                    );
                                    assert(bays_view(stations@) =~~= deposit_model(
                                        bays_view(mid),
                                        outs.take(j as int + 1),
                                        p,
                                    ));
                                }
                                j = j + 1;
                            }
                            proof {
                                assert(outs.take(ob as int) =~= outs);
                                assert(bays_view(mid) =~~= bays1);
                                assert(deposit_model(bays_view(mid), outs, p) == deposit_model(
                                    bays1,
                                    outs,
                                    p,
                                ));
                                assert(scan_model(
                                    skel,
                                    pre_bays,
                                    entry_pending,
                                    fired_any,
                                    start_i as int,
                                    i as int,
                                ) == scan_model(
                                    skel,
                                    deposit_model(bays1, outs, p),
                                    if is_entry_turn {
                                        false
                                    } else {
                                        entry_pending
                                    },
                                    true,
                                    start_i as int,
                                    i as int + 1,
                                ));
                                assert(bays_view(stations@) =~~= deposit_model(bays1, outs, p));
                            }
                            if is_entry_turn {
                                entry_pending = false;
                            }
                            fired_any = true;
                        },
                    }
                } else {
                    proof {
                        assert(scan_model(
                            skel,
                            pre_bays,
                            entry_pending,
                            fired_any,
                            start_i as int,
                            i as int,
                        ) == scan_model(
                            skel,
                            pre_bays,
                            entry_pending,
                            fired_any,
                            start_i as int,
                            i as int + 1,
                        ));
                    }
                }
            } else {
                proof {
                    assert(scan_model(
                        skel,
                        pre_bays,
                        entry_pending,
                        fired_any,
                        start_i as int,
                        i as int,
                    ) == scan_model(
                        skel,
                        pre_bays,
                        entry_pending,
                        fired_any,
                        start_i as int,
                        i as int + 1,
                    ));
                }
            }
            i = i + 1;
        }
        proof {
            assert(scan_model(
                skel,
                bays_view(stations@),
                entry_pending,
                fired_any,
                start_i as int,
                n as int,
            ) == ScanStep::Continue(bays_view(stations@), entry_pending, fired_any));
        }
        if !fired_any {
            proof {
                assert(rounds_model(skel, round_bays, round_ep, start_i as int, fuel)
                    == RunOutcome::Deadlock);
            }
            return Err(
                Error::new(
                    ErrorType::DeadlockError,
                    SourceLocation { line: 0, col: 0, len: 0 },
                    "no station can act and no terminal station was reached",
                ),
            );
        }
        proof {
            assert(rounds_model(skel, round_bays, round_ep, start_i as int, fuel) == rounds_model(
                skel,
                bays_view(stations@),
                entry_pending,
                start_i as int,
                (fuel - 1) as nat,
            ));
        }
        round = round + 1;
    }
    proof {
        assert(rounds_model(
            skel,
            bays_view(stations@),
            entry_pending,
            start_i as int,
            (MAX_ROUNDS - round) as nat,
        ) == RunOutcome::Deadlock);
    }
    Err(
        Error::new(
            ErrorType::DeadlockError,
            SourceLocation { line: 0, col: 0, len: 0 },
            "round limit reached without reaching a terminal station",
        ),
    )
}


/// Agreement on everything the scheduling model reads: spans, arities,
/// behaviors, terminal flags, out-bay wiring and starting bay contents.
pub open spec fn same_engine_model(a: Seq<Station>, b: Seq<Station>) -> bool {
    &&& a.len() == b.len()
    &&& forall|i: int|
        0 <= i < a.len() ==> (#[trigger] a[i]).loc == b[i].loc && a[i].logic.inputs
            == b[i].logic.inputs && a[i].logic.kind == b[i].logic.kind && a[i].logic.is_terminal
            == b[i].logic.is_terminal && a[i].out_bays@ == b[i].out_bays@ && a[i].in_bays@
            == b[i].in_bays@
}

proof fn lemma_scan_model_congruence(
    a: Seq<Station>,
    b: Seq<Station>,
    bays: Seq<Seq<Option<Pallet>>>,
    ep: bool,
    fired: bool,
    start: int,
    i: int,
)
    requires
        same_engine_model(a, b),
        0 <= i <= a.len(),
    ensures
        scan_model(a, bays, ep, fired, start, i) == scan_model(b, bays, ep, fired, start, i),
    decreases a.len() - i,
{
    if i < a.len() {
        assert(ready_model(a, bays, i) == ready_model(b, bays, i));
        let entry_turn = ep && i == start;
        if entry_turn || ready_model(a, bays, i) {
            if a[i].logic.is_terminal {
            } else {
                assert(free_model(a, bays, i) == free_model(b, bays, i));
                if free_model(a, bays, i) {
                    let inputs = if entry_turn {
                        Seq::<Pallet>::empty()
                    } else {
                        inputs_model(a, bays, i)
                    };
                    assert(inputs_model(a, bays, i) =~= inputs_model(b, bays, i));
                    let bays1 = if entry_turn {
                        bays
                    } else {
                        cleared_model(bays, i, a[i].logic.inputs as int)
                    };
                    match apply_spec(a[i].logic.kind, inputs) {
                        None => {},
                        Some(p) => {
                            lemma_scan_model_congruence(
                                a,
                                b,
                                deposit_model(bays1, a[i].out_bays@, p),
                                if entry_turn {
                                    false
                                } else {
                                    ep
                                },
                                true,
                                start,
                                i + 1,
                            );
                        },
                    }
                } else {
                    lemma_scan_model_congruence(a, b, bays, ep, fired, start, i + 1);
                }
            }
        } else {
            lemma_scan_model_congruence(a, b, bays, ep, fired, start, i + 1);
        }
    }
}

proof fn lemma_rounds_model_congruence(
    a: Seq<Station>,
    b: Seq<Station>,
    bays: Seq<Seq<Option<Pallet>>>,
    ep: bool,
    start: int,
    fuel: nat,
)
    requires
        same_engine_model(a, b),
    ensures
        rounds_model(a, bays, ep, start, fuel) == rounds_model(b, bays, ep, start, fuel),
    decreases fuel,
{
    if fuel > 0 {
        lemma_scan_model_congruence(a, b, bays, ep, false, start, 0);
        match scan_model(a, bays, ep, false, start, 0) {
            ScanStep::Finished(o) => {},
            ScanStep::Continue(bays2, ep2, fired) => {
                if fired {
                    lemma_rounds_model_congruence(a, b, bays2, ep2, start, (fuel - 1) as nat);
                }
            },
        }
    }
}

/// The outcome the scheduling policy assigns depends only on what the model
/// reads of the graph, never on anything else a station value carries.
pub proof fn lemma_engine_outcome_congruence(a: Seq<Station>, b: Seq<Station>, start: int)
    requires
        same_engine_model(a, b),
    ensures
        engine_outcome(a, start) == engine_outcome(b, start),
{
    assert(bays_view(a) =~~= bays_view(b));
    lemma_rounds_model_congruence(a, b, bays_view(a), true, start, MAX_ROUNDS as nat);
}

} // verus!
