use vstd::prelude::*;

use crate::errors::PullError;
use crate::hashing::{chain_extend, chain_fold, chain_step};

verus! {

// The finality puller is a state machine. The caller performs the network
// round-trips, turns each server response into a `PullEvent`, and hands it to
// `step`; the machine folds batches into the rolling hash chain in index
// order and decides when the declared finality pointer is reached. The only
// state carried between polls is a `ChainState`.

/// The chain state between polls: the last consumed batch index (requests
/// fetch strictly after it), the rolling hash accumulated so far, and the
/// batch contents consumed so far in this pull.
pub struct ChainState {
    pub next_index: i64,
    pub rolling_hash: Vec<u8>,
    pub batches: Vec<Vec<u8>>,
}

/// The mathematical value of a `ChainState`.
pub struct ChainStateModel {
    pub next_index: int,
    pub rolling_hash: Seq<u8>,
    pub batches: Seq<Seq<u8>>,
}

impl View for ChainState {
    type V = ChainStateModel;

    open spec fn view(&self) -> ChainStateModel {
        ChainStateModel {
            next_index: self.next_index as int,
            rolling_hash: self.rolling_hash@,
            batches: self.batches.deep_view(),
        }
    }
}

/// One server response, reduced to what the protocol reads from it: either
/// no data payload at all ("not yet available, retry"), or a list of batch
/// contents together with an optional declared finality pointer.
pub enum PullEvent {
    NoData,
    Data { batches: Vec<Vec<u8>>, finalized: Option<i64> },
}

/// The mathematical value of a `PullEvent`.
pub enum EventModel {
    NoData,
    Data { batches: Seq<Seq<u8>>, finalized: Option<int> },
}

impl View for PullEvent {
    type V = EventModel;

    open spec fn view(&self) -> EventModel {
        match self {
            PullEvent::NoData => EventModel::NoData,
            PullEvent::Data { batches, finalized } => EventModel::Data {
                batches: batches.deep_view(),
                finalized: match finalized {
                    Some(f) => Some(*f as int),
                    None => None,
                },
            },
        }
    }
}

/// What one poll decides: keep polling from the new state, stop with the
/// finished chain, or fail on a protocol violation.
pub enum StepResult {
    Continue(ChainState),
    Done { rolling_hash: Vec<u8>, batches: Vec<Vec<u8>>, final_index: i64 },
    Failed(PullError),
}

/// The mathematical value of a `StepResult`.
pub enum StepModel {
    Continue(ChainStateModel),
    Done { rolling_hash: Seq<u8>, batches: Seq<Seq<u8>>, final_index: int },
    Failed(PullError),
}

impl View for StepResult {
    type V = StepModel;

    open spec fn view(&self) -> StepModel {
        match self {
            StepResult::Continue(st) => StepModel::Continue(st@),
            StepResult::Done { rolling_hash, batches, final_index } => StepModel::Done {
                rolling_hash: rolling_hash@,
                batches: batches.deep_view(),
                final_index: *final_index as int,
            },
            StepResult::Failed(e) => StepModel::Failed(*e),
        }
    }
}

/// Folds the batches of one response into the state, in order: each batch
/// takes the next index, extends the rolling hash by one chain link, and is
/// appended to the output; the fold stops the moment the consumed index
/// reaches the declared finality pointer, discarding any later batches of
/// the same response.
pub open spec fn consume_batches(
    st: ChainStateModel,
    batches: Seq<Seq<u8>>,
    finalized: Option<int>,
) -> StepModel
    decreases batches.len(),
{
    if batches.len() == 0 {
        StepModel::Continue(st)
    } else {
        let st2 = ChainStateModel {
            next_index: st.next_index + 1,
            rolling_hash: chain_step(st.rolling_hash, batches[0]),
            batches: st.batches.push(batches[0]),
        };
        if finalized matches Some(f) && f == st2.next_index {
            StepModel::Done {
                rolling_hash: st2.rolling_hash,
                batches: st2.batches,
                final_index: st2.next_index,
            }
        } else {
            consume_batches(st2, batches.drop_first(), finalized)
        }
    }
}

/// What one poll means. A response without data leaves the state unchanged;
/// a finality pointer at or behind the last consumed index is a regression,
/// fatal because consuming further batches can never reach it; otherwise the
/// response's batches are folded in.
pub open spec fn spec_step(st: ChainStateModel, ev: EventModel) -> StepModel {
    match ev {
        EventModel::NoData => StepModel::Continue(st),
        EventModel::Data { batches, finalized } => {
            if finalized matches Some(f) && f <= st.next_index {
                StepModel::Failed(PullError::FinalityPointerRegression)
            } else {
                consume_batches(st, batches, finalized)
            }
        },
    }
}

/// How many batches the event carries; bounds the index increments.
pub open spec fn event_batch_count(ev: EventModel) -> int {
    match ev {
        EventModel::NoData => 0,
        EventModel::Data { batches, .. } => batches.len() as int,
    }
}

/// The state a pull starts from. With a resume hash the caller's `after` is
/// the last index it already consumed, so fetching starts strictly after it;
/// on a fresh start the first fetched batch is the one at index `after`
/// itself, and the chain accumulator starts empty.
pub fn start_state(after: i64, resume_hash: Option<Vec<u8>>) -> (r: ChainState)
    requires
        after > i64::MIN,
    ensures
        r@.batches == Seq::<Seq<u8>>::empty(),
        match resume_hash {
            Some(h) => r@.rolling_hash == h@ && r@.next_index == after as int,
            None => r@.rolling_hash == Seq::<u8>::empty() && r@.next_index == after - 1,
        },
{
    let r = match resume_hash {
        Some(h) => ChainState { next_index: after, rolling_hash: h, batches: Vec::new() },
        None => ChainState {
            next_index: after - 1,
            rolling_hash: Vec::new(),
            batches: Vec::new(),
        },
    };
    assert(r@.batches =~= Seq::<Seq<u8>>::empty());
    r
}

/// Runs one poll of the state machine.
pub fn step(state: ChainState, event: PullEvent) -> (r: StepResult)
    requires
        state@.next_index + event_batch_count(event@) <= i64::MAX,
    ensures
        r@ == spec_step(state@, event@),
{
    match event {
        PullEvent::NoData => StepResult::Continue(state),
        PullEvent::Data { batches, finalized } => {
            let ghost all = batches.deep_view();
            let ghost fin: Option<int> = match finalized {
                Some(v) => Some(v as int),
                None => None,
            };
            if let Some(f) = finalized {
                if f <= state.next_index {
                    return StepResult::Failed(PullError::FinalityPointerRegression);
                }
            }
            let mut st = state;
            let mut rest = batches;
            #[verifier::loop_isolation(false)]
            while rest.len() > 0
                invariant
                    st@.next_index + rest@.len() <= i64::MAX,
                    spec_step(state@, EventModel::Data { batches: all, finalized: fin })
                        == consume_batches(st@, rest.deep_view(), fin),
                    fin matches Some(f) ==> f > st@.next_index,
                decreases rest@.len(),
            {
                let ghost prev_rest = rest.deep_view();
                let ghost prev_st = st@;
                let b = rest.remove(0);
                proof {
                    assert(rest.deep_view() =~= prev_rest.drop_first());
                    assert(b.deep_view() == prev_rest[0]);
                }
                st.next_index = st.next_index + 1;
                let new_hash = chain_extend(&st.rolling_hash, &b);
                st.rolling_hash = new_hash;
                st.batches.push(b);
                let ghost st2 = ChainStateModel {
                    next_index: prev_st.next_index + 1,
                    rolling_hash: chain_step(prev_st.rolling_hash, prev_rest[0]),
                    batches: prev_st.batches.push(prev_rest[0]),
                };
                proof {
                    assert(b@ =~= prev_rest[0]);
                    assert(st@.rolling_hash == chain_step(prev_st.rolling_hash, prev_rest[0]));
                    assert(st@.batches =~= prev_st.batches.push(prev_rest[0]));
                    assert(st@ == st2);
                    assert(prev_rest.len() > 0);
                }
                if let Some(f) = finalized {
                    if st.next_index == f {
                        proof {
                            assert(fin == Some(f as int));
                            assert(consume_batches(prev_st, prev_rest, fin) == StepModel::Done {
                                rolling_hash: st2.rolling_hash,
                                batches: st2.batches,
                                final_index: st2.next_index,
                            });
                        }
                        return StepResult::Done {
                            rolling_hash: st.rolling_hash,
                            batches: st.batches,
                            final_index: st.next_index,
                        };
                    }
                }
                proof {
                    assert(!(fin matches Some(f) && f == st2.next_index));
                    assert(consume_batches(prev_st, prev_rest, fin) == consume_batches(
                        st2,
                        prev_rest.drop_first(),
                        fin,
                    ));
                }
            }
            assert(rest.deep_view() =~= Seq::<Seq<u8>>::empty());
            StepResult::Continue(st)
        },
    }
}

/// The outcome of feeding a whole sequence of responses to the machine:
/// still polling, finished at finality, or failed on a protocol violation.
pub enum RunOutcome {
    Pending(ChainStateModel),
    Done { rolling_hash: Seq<u8>, batches: Seq<Seq<u8>>, final_index: int },
    Failed(PullError),
}

/// Feeds the events one by one, stopping at the first `Done` or `Failed`.
pub open spec fn run_events(st: ChainStateModel, evs: Seq<EventModel>) -> RunOutcome
    decreases evs.len(),
{
    if evs.len() == 0 {
        RunOutcome::Pending(st)
    } else {
        match spec_step(st, evs[0]) {
            StepModel::Continue(st2) => run_events(st2, evs.drop_first()),
            StepModel::Done { rolling_hash, batches, final_index } => RunOutcome::Done {
                rolling_hash,
                batches,
                final_index,
            },
            StepModel::Failed(e) => RunOutcome::Failed(e),
        }
    }
}

/// How a later point of the machine relates to an earlier state: the earlier
/// batches are a prefix, the rolling hash is the chain fold of the earlier
/// hash over exactly the newly consumed batches, and the index advanced by
/// their number.
pub open spec fn chain_extends(
    st: ChainStateModel,
    bs2: Seq<Seq<u8>>,
    h2: Seq<u8>,
    n2: int,
) -> bool {
    &&& st.batches.len() <= bs2.len()
    &&& bs2.subrange(0, st.batches.len() as int) == st.batches
    &&& h2 == chain_fold(st.rolling_hash, bs2.skip(st.batches.len() as int))
    &&& n2 == st.next_index + (bs2.len() - st.batches.len())
}

proof fn lemma_chain_extends_refl(st: ChainStateModel)
    ensures
        chain_extends(st, st.batches, st.rolling_hash, st.next_index),
{
    assert(st.batches.subrange(0, st.batches.len() as int) =~= st.batches);
    assert(st.batches.skip(st.batches.len() as int) =~= Seq::<Seq<u8>>::empty());
}

proof fn lemma_chain_extends_push(st: ChainStateModel, b: Seq<u8>)
    ensures
        chain_extends(
            st,
            st.batches.push(b),
            chain_step(st.rolling_hash, b),
            st.next_index + 1,
        ),
{
    let bs2 = st.batches.push(b);
    assert(bs2.subrange(0, st.batches.len() as int) =~= st.batches);
    assert(bs2.skip(st.batches.len() as int) =~= seq![b]);
    assert(seq![b].drop_first() =~= Seq::<Seq<u8>>::empty());
    assert(seq![b][0] == b);
    assert(chain_fold(chain_step(st.rolling_hash, b), Seq::<Seq<u8>>::empty()) == chain_step(
        st.rolling_hash,
        b,
    ));
    assert(chain_fold(st.rolling_hash, seq![b]) == chain_step(st.rolling_hash, b));
}

proof fn lemma_chain_extends_trans(
    s0: ChainStateModel,
    s1: ChainStateModel,
    bs: Seq<Seq<u8>>,
    h: Seq<u8>,
    n: int,
)
    requires
        chain_extends(s0, s1.batches, s1.rolling_hash, s1.next_index),
        chain_extends(s1, bs, h, n),
    ensures
        chain_extends(s0, bs, h, n),
{
    let k0 = s0.batches.len() as int;
    let k1 = s1.batches.len() as int;
    let delta1 = s1.batches.skip(k0);
    let delta2 = bs.skip(k1);
    assert(bs.subrange(0, k0) =~= s0.batches);
    assert(bs.skip(k0) =~= delta1 + delta2);
    crate::hashing::lemma_chain_fold_append(s0.rolling_hash, delta1, delta2);
}

proof fn lemma_consume_extends(st: ChainStateModel, batches: Seq<Seq<u8>>, finalized: Option<int>)
    ensures
        match consume_batches(st, batches, finalized) {
            StepModel::Continue(st2) => chain_extends(
                st,
                st2.batches,
                st2.rolling_hash,
                st2.next_index,
            ),
            StepModel::Done { rolling_hash, batches: bs, final_index } => chain_extends(
                st,
                bs,
                rolling_hash,
                final_index,
            ),
            StepModel::Failed(_) => false,
        },
    decreases batches.len(),
{
    if batches.len() == 0 {
        lemma_chain_extends_refl(st);
    } else {
        let st2 = ChainStateModel {
            next_index: st.next_index + 1,
            rolling_hash: chain_step(st.rolling_hash, batches[0]),
            batches: st.batches.push(batches[0]),
        };
        lemma_chain_extends_push(st, batches[0]);
        if !(finalized matches Some(f) && f == st2.next_index) {
            lemma_consume_extends(st2, batches.drop_first(), finalized);
            match consume_batches(st2, batches.drop_first(), finalized) {
                StepModel::Continue(st3) => {
                    lemma_chain_extends_trans(
                        st,
                        st2,
                        st3.batches,
                        st3.rolling_hash,
                        st3.next_index,
                    );
                },
                StepModel::Done { rolling_hash, batches: bs, final_index } => {
                    lemma_chain_extends_trans(st, st2, bs, rolling_hash, final_index);
                },
                StepModel::Failed(_) => {},
            }
        }
    }
}

/// Every point the machine can reach extends the starting state: the consumed
/// batches grow by appending only, and the rolling hash is always the chain
/// fold of the starting accumulator over the newly consumed batches.
pub proof fn lemma_run_extends(st: ChainStateModel, evs: Seq<EventModel>)
    ensures
        run_events(st, evs) matches RunOutcome::Done { rolling_hash, batches, final_index }
            ==> chain_extends(st, batches, rolling_hash, final_index),
        run_events(st, evs) matches RunOutcome::Pending(st2) ==> chain_extends(
            st,
            st2.batches,
            st2.rolling_hash,
            st2.next_index,
        ),
    decreases evs.len(),
{
    if evs.len() == 0 {
        lemma_chain_extends_refl(st);
    } else {
        match spec_step(st, evs[0]) {
            StepModel::Continue(st2) => {
                if evs[0] is NoData {
                    lemma_run_extends(st, evs.drop_first());
                } else {
                    lemma_consume_by_step(st, evs[0]);
                    lemma_run_extends(st2, evs.drop_first());
                    match run_events(st2, evs.drop_first()) {
                        RunOutcome::Pending(st3) => {
                            lemma_chain_extends_trans(
                                st,
                                st2,
                                st3.batches,
                                st3.rolling_hash,
                                st3.next_index,
                            );
                        },
                        RunOutcome::Done { rolling_hash, batches, final_index } => {
                            lemma_chain_extends_trans(st, st2, batches, rolling_hash, final_index);
                        },
                        RunOutcome::Failed(_) => {},
                    }
                }
            },
            StepModel::Done { .. } => {
                lemma_consume_by_step(st, evs[0]);
            },
            StepModel::Failed(_) => {},
        }
    }
}

proof fn lemma_consume_by_step(st: ChainStateModel, ev: EventModel)
    ensures
        match spec_step(st, ev) {
            StepModel::Continue(st2) => chain_extends(
                st,
                st2.batches,
                st2.rolling_hash,
                st2.next_index,
            ),
            StepModel::Done { rolling_hash, batches: bs, final_index } => chain_extends(
                st,
                bs,
                rolling_hash,
                final_index,
            ),
            StepModel::Failed(_) => true,
        },
{
    match ev {
        EventModel::NoData => {
            lemma_chain_extends_refl(st);
        },
        EventModel::Data { batches, finalized } => {
            if !(finalized matches Some(f) && f <= st.next_index) {
                lemma_consume_extends(st, batches, finalized);
            }
        },
    }
}

/// The chain returned at finality is a pure function of the initial
/// accumulator and the ordered batch contents consumed: the rolling hash is
/// exactly the chain fold of the starting hash over the returned batches, so
/// two pulls that consume the same batch contents from the same starting
/// point return the same hash.
pub proof fn lemma_pull_hash_pure(st: ChainStateModel, evs: Seq<EventModel>)
    requires
        st.batches == Seq::<Seq<u8>>::empty(),
    ensures
        run_events(st, evs) matches RunOutcome::Done { rolling_hash, batches, final_index }
            ==> rolling_hash == chain_fold(st.rolling_hash, batches) && final_index
                == st.next_index + batches.len(),
{
    lemma_run_extends(st, evs);
    match run_events(st, evs) {
        RunOutcome::Done { rolling_hash, batches, final_index } => {
            assert(batches.skip(0) =~= batches);
        },
        _ => {},
    }
}

/// The state a resumed pull starts from: the returned finality index and
/// rolling hash, with no batches consumed yet.
pub open spec fn resume_model(final_index: int, rolling_hash: Seq<u8>) -> ChainStateModel {
    ChainStateModel { next_index: final_index, rolling_hash, batches: Seq::empty() }
}

/// Resumption correctness: a pull that ends at finality, resumed from the
/// returned (rolling hash, index) pair, ends with exactly the chain that one
/// uninterrupted pull over the concatenated batch contents would return.
pub proof fn lemma_resumption(st0: ChainStateModel, evs1: Seq<EventModel>, evs2: Seq<EventModel>)
    requires
        st0.batches == Seq::<Seq<u8>>::empty(),
    ensures
        run_events(st0, evs1) matches RunOutcome::Done {
            rolling_hash: h1,
            batches: b1,
            final_index: f1,
        } ==> run_events(resume_model(f1, h1), evs2) matches RunOutcome::Done {
            rolling_hash: h2,
            batches: b2,
            final_index: f2,
        } ==> h2 == chain_fold(st0.rolling_hash, b1 + b2) && f2 == st0.next_index + b1.len()
            + b2.len(),
{
    lemma_pull_hash_pure(st0, evs1);
    match run_events(st0, evs1) {
        RunOutcome::Done { rolling_hash: h1, batches: b1, final_index: f1 } => {
            lemma_pull_hash_pure(resume_model(f1, h1), evs2);
            match run_events(resume_model(f1, h1), evs2) {
                RunOutcome::Done { rolling_hash: h2, batches: b2, final_index: f2 } => {
                    crate::hashing::lemma_chain_fold_append(st0.rolling_hash, b1, b2);
                },
                _ => {},
            }
        },
        _ => {},
    }
}

/// The events with the "not yet available" responses left out.
pub open spec fn drop_no_data(evs: Seq<EventModel>) -> Seq<EventModel>
    decreases evs.len(),
{
    if evs.len() == 0 {
        Seq::empty()
    } else if evs[0] is NoData {
        drop_no_data(evs.drop_first())
    } else {
        seq![evs[0]] + drop_no_data(evs.drop_first())
    }
}

/// Polling latency is harmless: any number of "not yet available" responses
/// interleaved before real data changes neither the final rolling hash nor
/// the returned batches — the run's outcome is that of the data responses
/// alone.
pub proof fn lemma_no_data_retries_harmless(st: ChainStateModel, evs: Seq<EventModel>)
    ensures
        run_events(st, drop_no_data(evs)) == run_events(st, evs),
    decreases evs.len(),
{
    if evs.len() == 0 {
    } else if evs[0] is NoData {
        assert(spec_step(st, evs[0]) == StepModel::Continue(st));
        lemma_no_data_retries_harmless(st, evs.drop_first());
    } else {
        let rest = drop_no_data(evs.drop_first());
        let full = seq![evs[0]] + rest;
        assert(full[0] == evs[0]);
        assert(full.drop_first() =~= rest);
        match spec_step(st, evs[0]) {
            StepModel::Continue(st2) => {
                lemma_no_data_retries_harmless(st2, evs.drop_first());
            },
            StepModel::Done { .. } => {},
            StepModel::Failed(_) => {},
        }
    }
}

} // verus!
