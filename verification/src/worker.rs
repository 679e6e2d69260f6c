//! The worker-loop logic: what each decoded response asks the display
//! sink to do, in arrival order, and when the loop must stop.

use vstd::prelude::*;
use crate::repl::{Params, Request, ReqV, Response, RespV, ReplError, ErrV};

verus! {

/// One call the worker makes on the display sink.
#[derive(Debug, PartialEq)]
pub enum SinkCall {
    /// Show content under the given prefix, one prefixed line per
    /// content line.
    Show(String, String),
    /// Echo text to the host's message area.
    OutWrite(String),
    /// A lifecycle marker line.
    Marker(String),
}

/// Ghost form of `SinkCall`.
#[verifier::ext_equal]
pub enum SinkV {
    Show(Seq<char>, Seq<char>),
    OutWrite(Seq<char>),
    Marker(Seq<char>),
}

impl View for SinkCall {
    type V = SinkV;

    open spec fn view(&self) -> SinkV {
        match self {
            SinkCall::Show(p, c) => SinkV::Show(p@, c@),
            SinkCall::OutWrite(s) => SinkV::OutWrite(s@),
            SinkCall::Marker(s) => SinkV::Marker(s@),
        }
    }
}

/// Ghost forms of a list of sink calls.
pub open spec fn calls_view(v: Seq<SinkCall>) -> Seq<SinkV> {
    Seq::new(v.len(), |i: int| v[i]@)
}

/// Ghost form of one received outcome.
pub open spec fn event_view(r: Result<Response, ReplError>) -> Result<RespV, ErrV> {
    match r {
        Ok(resp) => Ok(resp@),
        Err(e) => Err(e@),
    }
}

/// Ghost forms of a list of received outcomes.
pub open spec fn events_view(v: Seq<Result<Response, ReplError>>) -> Seq<Result<RespV, ErrV>> {
    Seq::new(v.len(), |i: int| event_view(v[i]))
}

/// Status tokens joined with one trailing space each.
pub open spec fn status_line(toks: Seq<Seq<char>>) -> Seq<char>
    decreases toks.len(),
{
    if toks.len() == 0 {
        Seq::empty()
    } else {
        toks[0] + seq![' '] + status_line(toks.skip(1))
    }
}

/// What the worker does after one received outcome: keep looping,
/// close in an orderly way, or treat the session as dead.
#[derive(Debug, PartialEq)]
pub enum LoopControl {
    Continue,
    SessionClosed,
    Fatal,
}

/// The sink calls one received outcome produces, in order.
pub open spec fn response_calls(r: Result<RespV, ErrV>) -> Seq<SinkV> {
    match r {
        Ok(resp) => match resp {
            RespV::Value { val, ns, ms, form } => seq![
                SinkV::Show(""@, val),
                SinkV::Show(";=> "@, ns),
                SinkV::OutWrite(val + "\n"@),
            ],
            RespV::StdErr(s) => seq![
                SinkV::Show(";\u{2716} "@, s),
                SinkV::OutWrite("ERROR: "@ + s + "\n"@),
            ],
            RespV::StdOut(s) => seq![SinkV::Show(";"@, s)],
            RespV::Exception { trace, message } => seq![SinkV::Show(";  "@, trace)],
            RespV::Status(toks) => seq![SinkV::Show(";; Status: "@, status_line(toks))],
            RespV::NewSession(s) => Seq::empty(),
            RespV::Other(s) => Seq::empty(),
            RespV::EndOfStream => seq![SinkV::Marker("REPL died?"@)],
        },
        Err(e) => seq![SinkV::Marker("REPL died?"@)],
    }
}

/// Whether one received outcome lets the loop continue.
pub open spec fn response_control(r: Result<RespV, ErrV>) -> LoopControl {
    match r {
        Ok(resp) => match resp {
            RespV::Status(toks) => if toks.contains("session-closed"@) {
                LoopControl::SessionClosed
            } else {
                LoopControl::Continue
            },
            RespV::EndOfStream => LoopControl::Fatal,
            _ => LoopControl::Continue,
        },
        Err(e) => LoopControl::Fatal,
    }
}

/// The sink calls of a whole run: each outcome's calls in arrival
/// order, stopping after the first one that ends the loop.
pub open spec fn loop_calls(events: Seq<Result<RespV, ErrV>>) -> Seq<SinkV>
    decreases events.len(),
{
    if events.len() == 0 {
        Seq::empty()
    } else {
        response_calls(events[0]) + (if response_control(events[0]) is Continue {
            loop_calls(events.skip(1))
        } else {
            Seq::empty()
        })
    }
}

/// How a whole run ends: the first closing outcome decides.
pub open spec fn loop_outcome(events: Seq<Result<RespV, ErrV>>) -> LoopControl
    decreases events.len(),
{
    if events.len() == 0 {
        LoopControl::Continue
    } else if !(response_control(events[0]) is Continue) {
        response_control(events[0])
    } else {
        loop_outcome(events.skip(1))
    }
}

/// Everything a session shows: the startup marker, the per-response
/// calls, and the end marker after an orderly close.
pub open spec fn session_calls(events: Seq<Result<RespV, ErrV>>) -> Seq<SinkV> {
    seq![SinkV::Marker("Start"@)] + loop_calls(events) + (if loop_outcome(events)
        is SessionClosed {
        seq![SinkV::Marker("End"@)]
    } else {
        Seq::empty()
    })
}

/// The sink calls for one received outcome, and whether to go on.
pub fn respond(resp: &Result<Response, ReplError>) -> (r: (Vec<SinkCall>, LoopControl))
    ensures
        calls_view(r.0@) == response_calls(event_view(*resp)),
        r.1 == response_control(event_view(*resp)),
{
    broadcast use vstd::string::group_string_axioms;

    let mut calls: Vec<SinkCall> = Vec::new();
    let mut control = LoopControl::Continue;
    match resp {
        Ok(Response::Value(val, ns, _, _)) => {
            calls.push(SinkCall::Show(String::new(), val.clone()));
            calls.push(SinkCall::Show(String::from_str(";=> "), ns.clone()));
            calls.push(SinkCall::OutWrite(val.clone().concat("\n")));
            proof {
                reveal_strlit("");
                reveal_strlit("\n");
                assert(calls_view(calls@) =~~= response_calls(event_view(*resp)));
            }
        },
        Ok(Response::StdErr(s)) => {
            calls.push(SinkCall::Show(String::from_str(";\u{2716} "), s.clone()));
            calls.push(
                SinkCall::OutWrite(String::from_str("ERROR: ").concat(s.as_str()).concat("\n")),
            );
            proof {
                reveal_strlit("\n");
                assert(calls_view(calls@) =~= response_calls(event_view(*resp)));
            }
        },
        Ok(Response::StdOut(s)) => {
            calls.push(SinkCall::Show(String::from_str(";"), s.clone()));
            proof {
                assert(calls_view(calls@) =~= response_calls(event_view(*resp)));
            }
        },
        Ok(Response::Exception(trace, _)) => {
            calls.push(SinkCall::Show(String::from_str(";  "), trace.clone()));
            proof {
                assert(calls_view(calls@) =~= response_calls(event_view(*resp)));
            }
        },
        Ok(Response::Status(toks)) => {
            let mut line = String::new();
            let mut i: usize = 0;
            proof {
                assert(toks.deep_view().skip(0) =~= toks.deep_view());
                assert(line@ + status_line(toks.deep_view()) =~= status_line(toks.deep_view()));
            }
            while i < toks.len()
                invariant
                    i <= toks@.len(),
                    status_line(toks.deep_view()) == line@ + status_line(
                        toks.deep_view().skip(i as int),
                    ),
                decreases toks@.len() - i,
            {
                let ghost prev = line@;
                line.append(toks[i].as_str());
                line.append(" ");
                proof {
                    reveal_strlit(" ");
                    let tv = toks.deep_view();
                    assert(tv.skip(i as int)[0] == tv[i as int]);
                    assert(tv[i as int] == toks@[i as int]@);
                    assert(tv.skip(i as int).skip(1) =~= tv.skip(i + 1 as int));
                    assert(line@ =~= prev + (tv[i as int] + seq![' ']));
                    assert(prev + (tv[i as int] + seq![' '] + status_line(
                        tv.skip(i + 1 as int),
                    )) =~= line@ + status_line(tv.skip(i + 1 as int)));
                }
                i = i + 1;
            }
            proof {
                assert(toks.deep_view().skip(toks@.len() as int) =~= Seq::<Seq<char>>::empty());
                assert(line@ + Seq::<char>::empty() =~= line@);
            }
            if crate::repl::vec_contains_str(toks, &String::from_str("session-closed")) {
                control = LoopControl::SessionClosed;
            }
            calls.push(SinkCall::Show(String::from_str(";; Status: "), line));
            proof {
                assert(calls_view(calls@) =~= response_calls(event_view(*resp)));
            }
        },
        Ok(Response::NewSession(_)) => {
            proof {
                assert(calls_view(calls@) =~= response_calls(event_view(*resp)));
            }
        },
        Ok(Response::Other(_)) => {
            proof {
                assert(calls_view(calls@) =~= response_calls(event_view(*resp)));
            }
        },
        Ok(Response::EndOfStream) => {
            calls.push(SinkCall::Marker(String::from_str("REPL died?")));
            control = LoopControl::Fatal;
            proof {
                assert(calls_view(calls@) =~= response_calls(event_view(*resp)));
            }
        },
        Err(e) => {
            calls.push(SinkCall::Marker(String::from_str("REPL died?")));
            control = LoopControl::Fatal;
            proof {
                assert(calls_view(calls@) =~= response_calls(event_view(*resp)));
            }
        },
    }
    (calls, control)
}

/// Drives one whole run over a list of received outcomes: forwards
/// every outcome's calls to the sink list in arrival order, stops at
/// the first closing outcome, and wraps the run in its start and end
/// markers.
pub fn repl_loop(events: Vec<Result<Response, ReplError>>) -> (r: (Vec<SinkCall>, LoopControl))
    ensures
        calls_view(r.0@) == session_calls(events_view(events@)),
        r.1 == loop_outcome(events_view(events@)),
{
    let mut calls: Vec<SinkCall> = Vec::new();
    calls.push(SinkCall::Marker(String::from_str("Start")));
    proof {
        assert(calls_view(calls@) =~= seq![SinkV::Marker("Start"@)]);
    }
    let ghost base = calls_view(calls@);
    let control = run_from(&events, 0, &mut calls);
    proof {
        assert(events_view(events@).skip(0) =~= events_view(events@));
        assert(calls_view(calls@) == base + loop_calls(events_view(events@)));
    }
    if matches!(control, LoopControl::SessionClosed) {
        calls.push(SinkCall::Marker(String::from_str("End")));
        proof {
            assert(calls_view(calls@) =~= session_calls(events_view(events@)));
        }
    } else {
        proof {
            assert(calls_view(calls@) =~= session_calls(events_view(events@)));
        }
    }
    (calls, control)
}

/// Processes the outcomes from `j` on.
fn run_from(
    events: &Vec<Result<Response, ReplError>>,
    j: usize,
    out: &mut Vec<SinkCall>,
) -> (control: LoopControl)
    requires
        j <= events@.len(),
    ensures
        calls_view(final(out)@) == calls_view(old(out)@) + loop_calls(
            events_view(events@).skip(j as int),
        ),
        control == loop_outcome(events_view(events@).skip(j as int)),
    decreases events@.len() - j,
{
    if j < events.len() {
        let ghost ev = events_view(events@);
        proof {
            assert(ev.skip(j as int)[0] == ev[j as int]);
            assert(ev[j as int] == event_view(events@[j as int]));
            assert(ev.skip(j as int).skip(1) =~= ev.skip(j + 1 as int));
        }
        let (mut batch, control) = respond(&events[j]);
        let ghost batch_v = calls_view(batch@);
        append_calls(out, &mut batch);
        match control {
            LoopControl::Continue => {
                let tail = run_from(events, j + 1, out);
                proof {
                    assert(calls_view(final(out)@) =~= calls_view(old(out)@) + loop_calls(
                        ev.skip(j as int),
                    ));
                }
                tail
            },
            LoopControl::SessionClosed => {
                proof {
                    assert(calls_view(final(out)@) =~= calls_view(old(out)@) + loop_calls(
                        ev.skip(j as int),
                    ));
                }
                LoopControl::SessionClosed
            },
            LoopControl::Fatal => {
                proof {
                    assert(calls_view(final(out)@) =~= calls_view(old(out)@) + loop_calls(
                        ev.skip(j as int),
                    ));
                }
                LoopControl::Fatal
            },
        }
    } else {
        proof {
            assert(events_view(events@).skip(j as int) =~= Seq::<Result<RespV, ErrV>>::empty());
            assert(calls_view(final(out)@) =~= calls_view(old(out)@));
        }
        LoopControl::Continue
    }
}

/// Moves all calls of `extra` onto the end of `out`.
fn append_calls(out: &mut Vec<SinkCall>, extra: &mut Vec<SinkCall>)
    ensures
        calls_view(final(out)@) == calls_view(old(out)@) + calls_view(old(extra)@),
{
    let ghost expected = calls_view(old(out)@) + calls_view(old(extra)@);
    out.append(extra);
    proof {
        assert(calls_view(final(out)@) =~= expected);
    }
}

/// One interleaved happening on a connection: either the host issued
/// a request, or the server's side produced a received outcome.
pub enum ConnEvent {
    Host(ReqV),
    Server(Result<RespV, ErrV>),
}

/// The received outcomes of a trace, in server order.
pub open spec fn server_events(t: Seq<ConnEvent>) -> Seq<Result<RespV, ErrV>>
    decreases t.len(),
{
    if t.len() == 0 {
        Seq::empty()
    } else {
        match t[0] {
            ConnEvent::Host(q) => server_events(t.skip(1)),
            ConnEvent::Server(e) => seq![e] + server_events(t.skip(1)),
        }
    }
}

/// The sink calls of an interleaved trace: host sends contribute
/// nothing, server outcomes contribute their calls in order until one
/// ends the loop.
pub open spec fn interleaved_calls(t: Seq<ConnEvent>) -> Seq<SinkV>
    decreases t.len(),
{
    if t.len() == 0 {
        Seq::empty()
    } else {
        match t[0] {
            ConnEvent::Host(q) => interleaved_calls(t.skip(1)),
            ConnEvent::Server(e) => response_calls(e) + (if response_control(e) is Continue {
                interleaved_calls(t.skip(1))
            } else {
                Seq::empty()
            }),
        }
    }
}

/// Ordering law: however host-issued requests interleave with the
/// server's responses, the sink sees exactly the responses' calls, in
/// exactly the order the server emitted them.
pub proof fn lemma_sink_order_independent_of_sends(t: Seq<ConnEvent>)
    ensures
        interleaved_calls(t) == loop_calls(server_events(t)),
    decreases t.len(),
{
    if t.len() > 0 {
        lemma_sink_order_independent_of_sends(t.skip(1));
        match t[0] {
            ConnEvent::Host(q) => {
                assert(server_events(t) == server_events(t.skip(1)));
            },
            ConnEvent::Server(e) => {
                let se = server_events(t);
                assert(se == seq![e] + server_events(t.skip(1)));
                assert(se[0] == e);
                assert(se.skip(1) =~= server_events(t.skip(1)));
            },
        }
    }
}

/// Maps one host command to the request it becomes: `eval` and
/// `interrupt` keep their payloads, anything else asks the server to
/// close.
pub fn host_command_to_request(name: &String, params: Params) -> (r: Request)
    ensures
        r@ == (if name@ == "eval"@ {
            ReqV::Eval(params@)
        } else if name@ == "interrupt"@ {
            ReqV::Interrupt(params@)
        } else {
            ReqV::Exit
        }),
{
    if *name == String::from_str("eval") {
        Request::Eval(params)
    } else if *name == String::from_str("interrupt") {
        Request::Interrupt(params)
    } else {
        Request::Exit
    }
}

} // verus!
