//! The loopback benchmark harness: what one run does, how its load is spread
//! over connections, and how a client frames its own calls inside a pipe.

use hyper::header::{HeaderMap, HeaderValue};
use vstd::prelude::*;
use vstd::utf8::encode_utf8;

use crate::cli::{arguments_said, number, parse_number};
use crate::headers::{fields, first_value, lower_name, values};
use crate::text::same_text;
use crate::wire::{be32, be32_value, law_be32_round_trip, read_be32};

verus! {

/// What one run measures.
pub struct Scenario {
    pub scenario: String,
    pub requests: usize,
    pub size: usize,
    /// Sockets driven at once. Each is its own connection, so this measures the
    /// per-connection cost the edge adds.
    pub concurrency: usize,
}

/// A run, as the command line asks for it.
pub struct Run {
    pub mode: String,
    pub proxy: String,
    pub scenario: Scenario,
}

/// What a run says.
pub struct RunView {
    pub mode: Seq<char>,
    pub proxy: Seq<char>,
    pub scenario: Seq<char>,
    pub requests: usize,
    pub size: usize,
    pub concurrency: usize,
}

impl View for Run {
    type V = RunView;

    open spec fn view(&self) -> RunView {
        RunView {
            mode: self.mode@,
            proxy: self.proxy@,
            scenario: self.scenario.scenario@,
            requests: self.scenario.requests,
            size: self.scenario.size,
            concurrency: self.scenario.concurrency,
        }
    }
}

/// The run of an empty command line.
pub open spec fn default_run() -> RunView {
    RunView {
        mode: "new"@,
        proxy: "127.0.0.1:9443"@,
        scenario: "latency"@,
        requests: 1000,
        size: 4,
        concurrency: 1,
    }
}

/// A text, or another one where it is absent.
pub open spec fn text_or(text: Option<Seq<char>>, other: Seq<char>) -> Seq<char> {
    match text {
        Some(text) => text,
        None => other,
    }
}

/// The number that a text is, or another one where it is absent or no number.
pub open spec fn number_or(text: Option<Seq<char>>, other: usize) -> usize {
    match text {
        Some(text) => match number(encode_utf8(text)) {
            Some(n) => n,
            None => other,
        },
        None => other,
    }
}

/// The run with one flag taken; `None` where the flag is not known.
pub open spec fn with_flag(run: RunView, flag: Seq<char>, next: Option<Seq<char>>) -> Option<
    RunView,
> {
    if flag == "--mode"@ {
        Some(RunView { mode: text_or(next, run.mode), ..run })
    } else if flag == "--proxy"@ {
        Some(RunView { proxy: text_or(next, run.proxy), ..run })
    } else if flag == "--scenario"@ {
        Some(RunView { scenario: text_or(next, run.scenario), ..run })
    } else if flag == "--requests"@ {
        Some(RunView { requests: number_or(next, 1000), ..run })
    } else if flag == "--size"@ {
        Some(RunView { size: number_or(next, 4), ..run })
    } else if flag == "--concurrency"@ {
        Some(RunView { concurrency: number_or(next, 1), ..run })
    } else {
        None
    }
}

/// What arguments come to, from some run on: the run, or the argument that is
/// not known.
pub open spec fn read_run(arguments: Seq<Seq<char>>, run: RunView) -> Result<RunView, Seq<char>>
    decreases arguments.len(),
{
    if arguments.len() == 0 {
        Ok(run)
    } else {
        let next = if arguments.len() > 1 {
            Some(arguments[1])
        } else {
            None
        };
        let rest = if arguments.len() > 1 {
            arguments.skip(2)
        } else {
            Seq::empty()
        };
        match with_flag(run, arguments[0], next) {
            Some(run) => read_run(rest, run),
            None => Err(arguments[0]),
        }
    }
}

/// The number that an argument is, or another one.
fn parse_or(next: Option<&String>, other: usize) -> (n: usize)
    ensures
        n == number_or(
            match next {
                Some(text) => Some(text@),
                None => None,
            },
            other,
        ),
{
    match next {
        Some(text) => match parse_number(text.as_str()) {
            Some(n) => n,
            None => other,
        },
        None => other,
    }
}

impl Run {
    /// Take one flag; false where it is not known.
    fn take(&mut self, flag: &str, next: Option<&String>) -> (known: bool)
        ensures
            ({
                let said = match next {
                    Some(text) => Some(text@),
                    None => None,
                };
                match with_flag(old(self)@, flag@, said) {
                    Some(run) => known && final(self)@ == run,
                    None => !known && final(self)@ == old(self)@,
                }
            }),
    {
        if same_text(flag, "--mode") {
            if let Some(text) = next {
                self.mode = text.clone();
            }
        } else if same_text(flag, "--proxy") {
            if let Some(text) = next {
                self.proxy = text.clone();
            }
        } else if same_text(flag, "--scenario") {
            if let Some(text) = next {
                self.scenario.scenario = text.clone();
            }
        } else if same_text(flag, "--requests") {
            self.scenario.requests = parse_or(next, 1000);
        } else if same_text(flag, "--size") {
            self.scenario.size = parse_or(next, 4);
        } else if same_text(flag, "--concurrency") {
            self.scenario.concurrency = parse_or(next, 1);
        } else {
            return false;
        }
        true
    }
}

/// Read the command line, without the program's name: the run, or the argument
/// that is not known.
pub fn parse_run(arguments: &Vec<String>) -> (run: Result<Run, String>)
    ensures
        match run {
            Ok(run) => read_run(arguments_said(arguments@), default_run()) == Ok::<
                RunView,
                Seq<char>,
            >(run@),
            Err(argument) => read_run(arguments_said(arguments@), default_run()) == Err::<
                RunView,
                Seq<char>,
            >(argument@),
        },
{
    let ghost all = arguments_said(arguments@);
    let mut run = Run {
        mode: "new".to_owned(),
        proxy: "127.0.0.1:9443".to_owned(),
        scenario: Scenario {
            scenario: "latency".to_owned(),
            requests: 1000,
            size: 4,
            concurrency: 1,
        },
    };
    let mut i: usize = 0;
    assert(all.skip(0) =~= all);
    while i < arguments.len()
        invariant
            i <= arguments@.len(),
            all == arguments_said(arguments@),
            read_run(all, default_run()) == read_run(all.skip(i as int), run@),
        decreases arguments@.len() - i,
    {
        let more: bool = i + 1 < arguments.len();
        let next: Option<&String> = if more { Some(&arguments[i + 1]) } else { None };
        proof {
            assert(all.skip(i as int)[0] == arguments@[i as int]@);
            if more {
                assert(all.skip(i as int)[1] == arguments@[i + 1]@);
                assert(all.skip(i as int).skip(2) =~= all.skip(i + 2));
            } else {
                assert(all.skip(i + 1) =~= Seq::empty());
            }
        }
        if !run.take(arguments[i].as_str(), next) {
            return Err(arguments[i].clone());
        }
        i = if more { i + 2 } else { i + 1 };
    }
    assert(all.skip(i as int) =~= Seq::empty());
    Ok(run)
}

/// Who does the cryptography of a client.
#[derive(PartialEq, Eq, Structural, Clone, Copy, Debug)]
pub enum Mode {
    /// TLS and a bearer token; the proxy runs Noise_IK on its behalf.
    New,
    /// A raw socket, the preamble and Noise_IK.
    Old,
}

/// The mode of a name.
pub open spec fn mode_named(name: Seq<char>) -> Option<Mode> {
    if name == "new"@ {
        Some(Mode::New)
    } else if name == "old"@ {
        Some(Mode::Old)
    } else {
        None
    }
}

/// Read a mode.
pub fn mode_of(text: &str) -> (mode: Option<Mode>)
    ensures
        mode == mode_named(text@),
        mode == (if text@ == "new"@ {
            Some(Mode::New)
        } else if text@ == "old"@ {
            Some(Mode::Old)
        } else {
            None
        }),
{
    if same_text(text, "new") {
        Some(Mode::New)
    } else if same_text(text, "old") {
        Some(Mode::Old)
    } else {
        None
    }
}

/// The connections that a run drives.
pub open spec fn lanes_of(concurrency: usize) -> nat {
    if concurrency == 0 {
        1
    } else {
        concurrency as nat
    }
}

/// How a run's requests are spread over its connections.
pub struct Plan {
    pub lanes: usize,
    pub per_lane: usize,
    pub total: usize,
}

/// The requests of one connection, where all have the same number and no
/// request is left out.
pub open spec fn per_lane_of(requests: nat, lanes: nat) -> nat {
    if requests % lanes == 0 {
        requests / lanes
    } else {
        requests / lanes + 1
    }
}

/// Spread requests over at least one connection: evenly, and no fewer than were
/// asked for.
pub fn plan(requests: usize, concurrency: usize) -> (plan: Plan)
    requires
        per_lane_of(requests as nat, lanes_of(concurrency)) * lanes_of(concurrency) <= usize::MAX,
    ensures
        plan.lanes == lanes_of(concurrency),
        plan.per_lane == per_lane_of(requests as nat, lanes_of(concurrency)),
        plan.total == plan.per_lane * plan.lanes,
        requests <= plan.total < requests + plan.lanes,
{
    let lanes: usize = if concurrency == 0 { 1 } else { concurrency };
    let whole: usize = requests / lanes;
    let left: usize = requests % lanes;
    assert(requests == whole * lanes + left && left < lanes) by (nonlinear_arith)
        requires
            lanes > 0,
            whole == requests / lanes,
            left == requests % lanes,
    ;
    if left == 0 {
        assert(whole * lanes == requests);
        return Plan { lanes, per_lane: whole, total: whole * lanes };
    }
    assert((whole + 1) * lanes == whole * lanes + lanes) by (nonlinear_arith);
    assert(whole < requests) by (nonlinear_arith)
        requires
            requests == whole * lanes + left,
            lanes > 0,
            left > 0,
    ;
    let per_lane: usize = whole + 1;
    Plan { lanes, per_lane, total: per_lane * lanes }
}

/// The route of a scenario.
pub open spec fn route_of(scenario: Seq<char>) -> Seq<char> {
    if scenario == "throughput"@ {
        "/api/session.uploadFileBinary"@
    } else {
        "/api/echo"@
    }
}

/// The route that a scenario calls.
pub fn route(scenario: &str) -> (path: &'static str)
    ensures
        path@ == route_of(scenario@),
        path@ == (if scenario@ == "throughput"@ {
            "/api/session.uploadFileBinary"@
        } else {
            "/api/echo"@
        }),
{
    if same_text(scenario, "throughput") {
        "/api/session.uploadFileBinary"
    } else {
        "/api/echo"
    }
}

/// A call inside a pipe: its length as four bytes, then the call.
pub open spec fn piped(payload: Seq<u8>) -> Seq<u8> {
    be32(payload.len() as u32) + payload
}

/// Frame a call for a pipe.
pub fn pipe_frame(payload: &[u8]) -> (frame: Vec<u8>)
    requires
        payload@.len() <= u32::MAX,
    ensures
        frame@ == piped(payload@),
{
    let n: u32 = payload.len() as u32;
    let mut frame: Vec<u8> = Vec::new();
    frame.push((n / 0x100_0000) as u8);
    frame.push((n / 0x1_0000 % 0x100) as u8);
    frame.push((n / 0x100 % 0x100) as u8);
    frame.push((n % 0x100) as u8);
    frame.extend_from_slice(payload);
    assert(frame@ =~= piped(payload@));
    frame
}

/// The length of the call behind a frame's head.
pub fn pipe_length(head: [u8; 4]) -> (n: usize)
    ensures
        n == be32_value(head@),
{
    assert(seq![head[0], head[1], head[2], head[3]] =~= head@);
    read_be32(head[0], head[1], head[2], head[3]) as usize
}

/// A framed call reads back as it was written.
pub proof fn law_piped_call_reads_back(payload: Seq<u8>)
    requires
        payload.len() <= u32::MAX,
    ensures
        be32_value(piped(payload)) == payload.len(),
        piped(payload).skip(4) == payload,
{
    law_be32_round_trip(payload.len() as u32);
    assert(piped(payload).skip(4) =~= payload);
}

/// Whether a request to the bridge asks for a pipe rather than a call.
pub fn asks_pipe(headers: &HeaderMap<HeaderValue>) -> (pipe: bool)
    ensures
        pipe == (values(fields(*headers), "upgrade"@).len() > 0),
{
    proof {
        reveal_strlit("upgrade");
        assert(lower_name("upgrade"@));
    }
    first_value(headers, "upgrade").is_some()
}

/// Whether a call came back as it should.
pub open spec fn came_back(throughput: bool, success: bool, length: usize) -> bool {
    success && (throughput || length == 4)
}

/// Whether a timed call came back as it should: with success, and, where the
/// answer is not a file, with the four bytes that were sent.
pub fn echo_is_good(throughput: bool, success: bool, length: usize) -> (good: bool)
    ensures
        good == came_back(throughput, success, length),
        good == (success && (throughput || length == 4)),
{
    success && (throughput || length == 4)
}

/// The flags are told apart.
proof fn lemma_flags()
    ensures
        "--mode"@.len() == 6,
        "--proxy"@.len() == 7,
        "--scenario"@.len() == 10,
        "--requests"@.len() == 10,
        "--size"@.len() == 6,
        "--concurrency"@.len() == 13,
        "--mode"@ != "--size"@,
        "--scenario"@ != "--requests"@,
{
    reveal_strlit("--mode");
    reveal_strlit("--proxy");
    reveal_strlit("--scenario");
    reveal_strlit("--requests");
    reveal_strlit("--size");
    reveal_strlit("--concurrency");
    assert("--mode"@[2] != "--size"@[2]);
    assert("--scenario"@[2] != "--requests"@[2]);
}

/// Each flag sets exactly its own part of a run to the argument behind it; what
/// is no number where one is asked for stands for the default.
pub proof fn law_flags_set_their_part(arguments: Seq<Seq<char>>, run: RunView)
    requires
        arguments.len() >= 2,
    ensures
        arguments[0] == "--mode"@ ==> read_run(arguments, run) == read_run(
            arguments.skip(2),
            RunView { mode: arguments[1], ..run },
        ),
        arguments[0] == "--proxy"@ ==> read_run(arguments, run) == read_run(
            arguments.skip(2),
            RunView { proxy: arguments[1], ..run },
        ),
        arguments[0] == "--scenario"@ ==> read_run(arguments, run) == read_run(
            arguments.skip(2),
            RunView { scenario: arguments[1], ..run },
        ),
        arguments[0] == "--requests"@ ==> read_run(arguments, run) == read_run(
            arguments.skip(2),
            RunView {
                requests: match number(encode_utf8(arguments[1])) {
                    Some(n) => n,
                    None => 1000,
                },
                ..run
            },
        ),
        arguments[0] == "--size"@ ==> read_run(arguments, run) == read_run(
            arguments.skip(2),
            RunView {
                size: match number(encode_utf8(arguments[1])) {
                    Some(n) => n,
                    None => 4,
                },
                ..run
            },
        ),
        arguments[0] == "--concurrency"@ ==> read_run(arguments, run) == read_run(
            arguments.skip(2),
            RunView {
                concurrency: match number(encode_utf8(arguments[1])) {
                    Some(n) => n,
                    None => 1,
                },
                ..run
            },
        ),
{
    lemma_flags();
}

/// At the end of the line a text stays as it was, and a number is the default.
pub proof fn law_flags_at_the_end(arguments: Seq<Seq<char>>, run: RunView)
    requires
        arguments.len() == 1,
    ensures
        arguments[0] == "--mode"@ ==> read_run(arguments, run) == Ok::<RunView, Seq<char>>(run),
        arguments[0] == "--proxy"@ ==> read_run(arguments, run) == Ok::<RunView, Seq<char>>(run),
        arguments[0] == "--scenario"@ ==> read_run(arguments, run) == Ok::<RunView, Seq<char>>(run),
        arguments[0] == "--requests"@ ==> read_run(arguments, run) == Ok::<RunView, Seq<char>>(
            RunView { requests: 1000, ..run },
        ),
        arguments[0] == "--size"@ ==> read_run(arguments, run) == Ok::<RunView, Seq<char>>(
            RunView { size: 4, ..run },
        ),
        arguments[0] == "--concurrency"@ ==> read_run(arguments, run) == Ok::<RunView, Seq<char>>(
            RunView { concurrency: 1, ..run },
        ),
{
    lemma_flags();
    reveal_with_fuel(read_run, 2);
}

/// An argument that is no flag is refused by its name; an empty line runs.
pub proof fn law_other_arguments_are_refused(arguments: Seq<Seq<char>>, run: RunView)
    ensures
        arguments.len() == 0 ==> read_run(arguments, run) == Ok::<RunView, Seq<char>>(run),
        arguments.len() > 0 && arguments[0] != "--mode"@ && arguments[0] != "--proxy"@
            && arguments[0] != "--scenario"@ && arguments[0] != "--requests"@
            && arguments[0] != "--size"@ && arguments[0] != "--concurrency"@
            ==> read_run(arguments, run) == Err::<RunView, Seq<char>>(
            arguments[0],
        ),
{
}

/// What is run where the command line says nothing else.
pub proof fn law_default_run()
    ensures
        default_run().mode == seq!['n', 'e', 'w'],
        default_run().scenario == seq!['l', 'a', 't', 'e', 'n', 'c', 'y'],
        default_run().proxy == "127.0.0.1:9443"@,
        default_run().requests == 1000,
        default_run().size == 4,
        default_run().concurrency == 1,
{
    reveal_strlit("new");
    reveal_strlit("latency");
    assert("new"@ =~= seq!['n', 'e', 'w']);
    assert("latency"@ =~= seq!['l', 'a', 't', 'e', 'n', 'c', 'y']);
}

/// There are two modes, and they go by their names.
pub proof fn law_modes_go_by_their_names(name: Seq<char>)
    ensures
        mode_named(name) == Some(Mode::New) <==> name == seq!['n', 'e', 'w'],
        mode_named(name) == Some(Mode::Old) <==> name == seq!['o', 'l', 'd'],
{
    reveal_strlit("new");
    reveal_strlit("old");
    assert("new"@ =~= seq!['n', 'e', 'w']);
    assert("old"@ =~= seq!['o', 'l', 'd']);
    assert("new"@[0] != "old"@[0]);
}

/// Throughput is measured on uploads, and everything else on echoes.
pub proof fn law_scenarios_have_their_route(scenario: Seq<char>)
    ensures
        scenario == "throughput"@ ==> route_of(scenario) == "/api/session.uploadFileBinary"@,
        scenario != "throughput"@ ==> route_of(scenario) == "/api/echo"@,
{
}

/// A call that failed is never good; one that succeeded is, where its answer is a
/// file or four bytes long.
pub proof fn law_good_calls_come_back(length: usize)
    ensures
        !came_back(true, false, length) && !came_back(false, false, length),
        came_back(true, true, length),
        came_back(false, true, length) <==> length == 4,
{
}

/// Every connection makes the same number of requests, together no fewer than
/// were asked for, and with one fewer each they would be too few.
pub proof fn law_load_is_spread_evenly(requests: nat, concurrency: usize)
    ensures
        concurrency > 0 ==> lanes_of(concurrency) == concurrency,
        lanes_of(0) == 1,
        ({
            let lanes = lanes_of(concurrency);
            let each = per_lane_of(requests, lanes);
            &&& each * lanes >= requests
            &&& each > 0 ==> (each - 1) * lanes < requests
            &&& requests == 0 ==> each == 0
        }),
{
    let lanes = lanes_of(concurrency);
    let whole = requests / lanes;
    let left = requests % lanes;
    assert(requests == whole * lanes + left && left < lanes) by (nonlinear_arith)
        requires
            lanes > 0,
            whole == requests / lanes,
            left == requests % lanes,
    ;
    let each = per_lane_of(requests, lanes);
    if left == 0 {
        assert(each == whole);
        assert((whole - 1) * lanes == whole * lanes - lanes) by (nonlinear_arith);
        assert(requests == 0 ==> whole == 0) by (nonlinear_arith)
            requires
                requests == whole * lanes,
                lanes > 0,
        ;
    } else {
        assert(each == whole + 1);
        assert((whole + 1) * lanes == whole * lanes + lanes) by (nonlinear_arith);
        assert((each - 1) * lanes == whole * lanes);
    }
}

/// Where each part of a framed call stands: its length in four bytes, the most
/// significant first, and then the call.
pub proof fn law_piped_call_layout(payload: Seq<u8>)
    requires
        payload.len() <= u32::MAX,
    ensures
        ({
            let s = piped(payload);
            &&& s.len() == 4 + payload.len()
            &&& s[0] * 16777216 + s[1] * 65536 + s[2] * 256 + s[3] == payload.len()
            &&& s.skip(4) == payload
        }),
{
    law_piped_call_reads_back(payload);
}

/// What a run says is what it holds.
pub proof fn law_runs_say_what_they_hold(run: Run)
    ensures
        run@.mode == run.mode@,
        run@.proxy == run.proxy@,
        run@.scenario == run.scenario.scenario@,
        run@.requests == run.scenario.requests,
        run@.size == run.scenario.size,
        run@.concurrency == run.scenario.concurrency,
{
}

} // verus!
