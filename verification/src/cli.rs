//! The command line: a few flags.

use std::time::Duration;

use vstd::prelude::*;
use vstd::utf8::encode_utf8;

use crate::crypto::{base64_bytes, decode_base64};
use crate::text::{same_text, trim, trimmed};
use crate::{of_millis, Limits};

verus! {

/// What the digits of a text add up to.
pub open spec fn decimal(digits: Seq<u8>) -> nat
    decreases digits.len(),
{
    if digits.len() == 0 {
        0
    } else {
        decimal(digits.drop_last()) * 10 + (digits.last() - 48) as nat
    }
}

/// Whether a text is one or more decimal digits.
pub open spec fn all_digits(text: Seq<u8>) -> bool {
    text.len() > 0 && forall|i: int| 0 <= i < text.len() ==> 48 <= (#[trigger] text[i]) <= 57
}

/// A text without the `+` that may lead it.
pub open spec fn unsigned(text: Seq<u8>) -> Seq<u8> {
    if text.len() > 0 && text[0] == 43 {
        text.skip(1)
    } else {
        text
    }
}

/// What a text says as a number: a `+` or nothing, and then only digits, for a
/// number that fits.
pub open spec fn number(text: Seq<u8>) -> Option<usize> {
    let digits = unsigned(text);
    if all_digits(digits) && decimal(digits) <= usize::MAX {
        Some(decimal(digits) as usize)
    } else {
        None
    }
}

/// More digits make no smaller number.
proof fn lemma_decimal_grows(digits: Seq<u8>, n: int)
    requires
        all_digits(digits),
        0 <= n <= digits.len(),
    ensures
        decimal(digits.take(n)) <= decimal(digits),
    decreases digits.len() - n,
{
    if n < digits.len() {
        lemma_decimal_grows(digits, n + 1);
        assert(digits.take(n + 1).drop_last() =~= digits.take(n));
    } else {
        assert(digits.take(n) =~= digits);
    }
}

/// Read a number.
pub fn parse_number(text: &str) -> (n: Option<usize>)
    ensures
        n == number(encode_utf8(text@)),
{
    let bytes = text.as_bytes();
    let ghost digits = unsigned(bytes@);
    let start: usize = if bytes.len() > 0 && bytes[0] == 43 { 1 } else { 0 };
    assert(digits =~= bytes@.skip(start as int));
    if start == bytes.len() {
        return None;
    }
    let mut i: usize = start;
    let mut n: usize = 0;
    assert(digits.take(0) =~= Seq::empty());
    while i < bytes.len()
        invariant
            start <= i <= bytes@.len(),
            digits == bytes@.skip(start as int),
            digits.len() > 0,
            digits == unsigned(encode_utf8(text@)),
            forall|k: int| 0 <= k < i - start ==> 48 <= (#[trigger] digits[k]) <= 57,
            n == decimal(digits.take(i - start)),
        decreases bytes@.len() - i,
    {
        let b: u8 = bytes[i];
        assert(digits[i - start] == b);
        if b < 48 || b > 57 {
            return None;
        }
        let digit: usize = (b - 48) as usize;
        assert(digits.take(i - start + 1).drop_last() =~= digits.take(i - start));
        let ghost next = n * 10 + digit;
        if n > (usize::MAX - digit) / 10 {
            proof {
                if all_digits(digits) {
                    lemma_decimal_grows(digits, i - start + 1);
                }
                assert(next > usize::MAX);
            }
            return None;
        }
        n = n * 10 + digit;
        i += 1;
    }
    assert(digits.take(i - start) =~= digits);
    Some(n)
}

/// What the command line asks for.
pub struct Options {
    pub listen: String,
    pub key: Option<String>,
    pub tls_cert: Option<String>,
    pub tls_key: Option<String>,
    pub state: Option<String>,
    pub self_signed: bool,
    pub tunnels_per_device: usize,
    pub limits: Limits,
}

/// What the options say.
pub struct OptionsView {
    pub listen: Seq<char>,
    pub key: Option<Seq<char>>,
    pub tls_cert: Option<Seq<char>>,
    pub tls_key: Option<Seq<char>>,
    pub state: Option<Seq<char>>,
    pub self_signed: bool,
    pub tunnels_per_device: usize,
    pub max_bridges: usize,
    pub max_bridges_per_ip: usize,
    pub max_clients_per_ip: usize,
    pub max_streams_per_bridge: usize,
    pub handshake_timeout: Duration,
}

/// A text that may be absent.
pub open spec fn text_of(text: Option<String>) -> Option<Seq<char>> {
    match text {
        Some(text) => Some(text@),
        None => None,
    }
}

impl View for Options {
    type V = OptionsView;

    open spec fn view(&self) -> OptionsView {
        OptionsView {
            listen: self.listen@,
            key: text_of(self.key),
            tls_cert: text_of(self.tls_cert),
            tls_key: text_of(self.tls_key),
            state: text_of(self.state),
            self_signed: self.self_signed,
            tunnels_per_device: self.tunnels_per_device,
            max_bridges: self.limits.max_bridges,
            max_bridges_per_ip: self.limits.max_bridges_per_ip,
            max_clients_per_ip: self.limits.max_clients_per_ip,
            max_streams_per_bridge: self.limits.max_streams_per_bridge,
            handshake_timeout: self.limits.handshake_timeout,
        }
    }
}

/// The options of an empty command line.
pub open spec fn defaults() -> OptionsView {
    OptionsView {
        listen: "0.0.0.0:443"@,
        key: None,
        tls_cert: None,
        tls_key: None,
        state: None,
        self_signed: false,
        tunnels_per_device: 8,
        max_bridges: 1024,
        max_bridges_per_ip: 32,
        max_clients_per_ip: 64,
        max_streams_per_bridge: 2048,
        handshake_timeout: of_millis(10_000),
    }
}

/// What the command line comes to.
pub enum CommandLine {
    /// Serve, with these options.
    Run(Options),
    /// Print the usage.
    Help,
    /// This argument is not known.
    Unknown(String),
    /// This flag needs a positive integer.
    NeedsPositive(String),
}

/// What the command line comes to.
pub enum Verdict {
    Run(OptionsView),
    Help,
    Unknown(Seq<char>),
    NeedsPositive(Seq<char>),
}

/// What a command line comes to, by what it says.
pub open spec fn verdict_of(line: CommandLine) -> Verdict {
    match line {
        CommandLine::Run(options) => Verdict::Run(options@),
        CommandLine::Help => Verdict::Help,
        CommandLine::Unknown(argument) => Verdict::Unknown(argument@),
        CommandLine::NeedsPositive(flag) => Verdict::NeedsPositive(flag@),
    }
}

/// The positive integer that an argument is, if it is one.
pub open spec fn positive_of(argument: Option<Seq<char>>) -> Option<usize> {
    match argument {
        Some(text) => match number(encode_utf8(text)) {
            Some(n) => if n > 0 {
                Some(n)
            } else {
                None
            },
            None => None,
        },
        None => None,
    }
}

/// Whether a flag takes a positive integer.
pub open spec fn counts(flag: Seq<char>) -> bool {
    ||| flag == "--max-tunnels-per-device"@
    ||| flag == "--max-bridges"@
    ||| flag == "--max-clients-per-ip"@
    ||| flag == "--max-bridges-per-ip"@
    ||| flag == "--max-streams-per-bridge"@
    ||| flag == "--handshake-timeout-ms"@
}

/// Whether a flag takes a text.
pub open spec fn takes_text(flag: Seq<char>) -> bool {
    ||| flag == "--listen"@
    ||| flag == "--key"@
    ||| flag == "--tls-cert"@
    ||| flag == "--tls-key"@
    ||| flag == "--state"@
}

/// The options with the count of a flag.
pub open spec fn with_count(options: OptionsView, flag: Seq<char>, n: usize) -> OptionsView {
    if flag == "--max-tunnels-per-device"@ {
        OptionsView { tunnels_per_device: n, ..options }
    } else if flag == "--max-bridges"@ {
        OptionsView { max_bridges: n, ..options }
    } else if flag == "--max-clients-per-ip"@ {
        OptionsView { max_clients_per_ip: n, ..options }
    } else if flag == "--max-bridges-per-ip"@ {
        OptionsView { max_bridges_per_ip: n, ..options }
    } else if flag == "--max-streams-per-bridge"@ {
        OptionsView { max_streams_per_bridge: n, ..options }
    } else {
        OptionsView { handshake_timeout: of_millis(n as u64), ..options }
    }
}

/// The options with the text of a flag: a flag at the end of the line takes its
/// text away, but the address to listen on stays.
pub open spec fn with_text(
    options: OptionsView,
    flag: Seq<char>,
    text: Option<Seq<char>>,
) -> OptionsView {
    if flag == "--listen"@ {
        OptionsView {
            listen: match text {
                Some(text) => text,
                None => options.listen,
            },
            ..options
        }
    } else if flag == "--key"@ {
        OptionsView { key: text, ..options }
    } else if flag == "--tls-cert"@ {
        OptionsView { tls_cert: text, ..options }
    } else if flag == "--tls-key"@ {
        OptionsView { tls_key: text, ..options }
    } else {
        OptionsView { state: text, ..options }
    }
}

/// What arguments come to, one after the other, from some options on.
pub open spec fn read(arguments: Seq<Seq<char>>, options: OptionsView) -> Verdict
    decreases arguments.len(),
{
    if arguments.len() == 0 {
        Verdict::Run(options)
    } else {
        let flag = arguments[0];
        let next = if arguments.len() > 1 {
            Some(arguments[1])
        } else {
            None
        };
        let rest = if arguments.len() > 1 {
            arguments.skip(2)
        } else {
            Seq::empty()
        };
        if takes_text(flag) {
            read(rest, with_text(options, flag, next))
        } else if flag == "--tls-self-signed"@ {
            read(arguments.skip(1), OptionsView { self_signed: true, ..options })
        } else if counts(flag) {
            match positive_of(next) {
                Some(n) => read(rest, with_count(options, flag, n)),
                None => Verdict::NeedsPositive(flag),
            }
        } else if flag == "--help"@ || flag == "-h"@ {
            Verdict::Help
        } else {
            Verdict::Unknown(flag)
        }
    }
}

/// Arguments by what they say.
pub open spec fn arguments_said(arguments: Seq<String>) -> Seq<Seq<char>> {
    arguments.map_values(|argument: String| argument@)
}

/// Read an argument as a positive integer.
pub fn positive(argument: Option<&String>) -> (n: Option<usize>)
    ensures
        n == positive_of(match argument {
            Some(text) => Some(text@),
            None => None,
        }),
{
    match argument {
        Some(text) => match parse_number(text.as_str()) {
            Some(n) => if n > 0 {
                Some(n)
            } else {
                None
            },
            None => None,
        },
        None => None,
    }
}

/// Whether a flag takes a positive integer.
fn is_count(flag: &str) -> (b: bool)
    ensures
        b == counts(flag@),
{
    same_text(flag, "--max-tunnels-per-device") || same_text(flag, "--max-bridges") || same_text(
        flag,
        "--max-clients-per-ip",
    ) || same_text(flag, "--max-bridges-per-ip") || same_text(flag, "--max-streams-per-bridge")
        || same_text(flag, "--handshake-timeout-ms")
}

/// Whether a flag takes a text.
fn is_text(flag: &str) -> (b: bool)
    ensures
        b == takes_text(flag@),
{
    same_text(flag, "--listen") || same_text(flag, "--key") || same_text(flag, "--tls-cert")
        || same_text(flag, "--tls-key") || same_text(flag, "--state")
}

impl Options {
    /// The options of an empty command line.
    pub fn new() -> (options: Self)
        ensures
            options@ == defaults(),
    {
        Options {
            listen: "0.0.0.0:443".to_owned(),
            key: None,
            tls_cert: None,
            tls_key: None,
            state: None,
            self_signed: false,
            tunnels_per_device: 8,
            limits: Limits::default(),
        }
    }

    /// Take the count of a flag.
    fn set_count(&mut self, flag: &str, n: usize)
        requires
            counts(flag@),
        ensures
            final(self)@ == with_count(old(self)@, flag@, n),
    {
        if same_text(flag, "--max-tunnels-per-device") {
            self.tunnels_per_device = n;
        } else if same_text(flag, "--max-bridges") {
            self.limits.max_bridges = n;
        } else if same_text(flag, "--max-clients-per-ip") {
            self.limits.max_clients_per_ip = n;
        } else if same_text(flag, "--max-bridges-per-ip") {
            self.limits.max_bridges_per_ip = n;
        } else if same_text(flag, "--max-streams-per-bridge") {
            self.limits.max_streams_per_bridge = n;
        } else {
            self.limits.handshake_timeout = Duration::from_millis(n as u64);
        }
    }

    /// Take the text of a flag.
    fn set_text(&mut self, flag: &str, text: Option<String>)
        requires
            takes_text(flag@),
        ensures
            final(self)@ == with_text(old(self)@, flag@, text_of(text)),
    {
        if same_text(flag, "--listen") {
            if let Some(text) = text {
                self.listen = text;
            }
        } else if same_text(flag, "--key") {
            self.key = text;
        } else if same_text(flag, "--tls-cert") {
            self.tls_cert = text;
        } else if same_text(flag, "--tls-key") {
            self.tls_key = text;
        } else {
            self.state = text;
        }
    }
}

/// Read the command line, without the program's name.
pub fn parse(arguments: &Vec<String>) -> (line: CommandLine)
    ensures
        verdict_of(line) == read(arguments_said(arguments@), defaults()),
{
    let ghost all = arguments_said(arguments@);
    let mut options = Options::new();
    let mut i: usize = 0;
    assert(all.skip(0) =~= all);
    while i < arguments.len()
        invariant
            i <= arguments@.len(),
            all == arguments_said(arguments@),
            read(all, defaults()) == read(all.skip(i as int), options@),
        decreases arguments@.len() - i,
    {
        let flag: &str = arguments[i].as_str();
        assert(all.skip(i as int)[0] == flag@);
        let more: bool = i + 1 < arguments.len();
        let next: Option<&String> = if more { Some(&arguments[i + 1]) } else { None };
        proof {
            assert(all.skip(i as int).skip(1) =~= all.skip(i + 1));
            if more {
                assert(all.skip(i as int)[1] == arguments@[i + 1]@);
                assert(all.skip(i as int).skip(2) =~= all.skip(i + 2));
            } else {
                assert(all.skip(i + 1) =~= Seq::empty());
            }
        }
        if is_text(flag) {
            let text: Option<String> = match next {
                Some(text) => Some(text.clone()),
                None => None,
            };
            options.set_text(flag, text);
            i = if more { i + 2 } else { i + 1 };
        } else if same_text(flag, "--tls-self-signed") {
            options.self_signed = true;
            i += 1;
        } else if is_count(flag) {
            match positive(next) {
                Some(n) => {
                    options.set_count(flag, n);
                    i = if more { i + 2 } else { i + 1 };
                },
                None => return CommandLine::NeedsPositive(flag.to_owned()),
            }
        } else if same_text(flag, "--help") || same_text(flag, "-h") {
            return CommandLine::Help;
        } else {
            return CommandLine::Unknown(flag.to_owned());
        }
    }
    assert(all.skip(i as int) =~= Seq::empty());
    CommandLine::Run(options)
}

/// Where the TLS identity comes from.
#[derive(PartialEq, Eq, Structural, Clone, Copy, Debug)]
pub enum IdentitySource {
    /// The two PEM files.
    Pem,
    /// An explicit self-signed one, for development.
    SelfSigned,
    /// Neither: there is no unencrypted mode.
    Missing,
}

/// Where the TLS identity comes from, by what is given.
pub open spec fn source_for(cert: bool, key: bool, self_signed: bool) -> IdentitySource {
    if cert && key {
        IdentitySource::Pem
    } else if !cert && !key && self_signed {
        IdentitySource::SelfSigned
    } else {
        IdentitySource::Missing
    }
}

/// Decide where the TLS identity comes from.
pub fn identity_source(options: &Options) -> (source: IdentitySource)
    ensures
        source == source_for(
            options@.tls_cert is Some,
            options@.tls_key is Some,
            options@.self_signed,
        ),
        source == (match (options@.tls_cert, options@.tls_key) {
            (Some(_), Some(_)) => IdentitySource::Pem,
            (None, None) => if options@.self_signed {
                IdentitySource::SelfSigned
            } else {
                IdentitySource::Missing
            },
            _ => IdentitySource::Missing,
        }),
{
    if options.tls_cert.is_some() && options.tls_key.is_some() {
        IdentitySource::Pem
    } else if options.tls_cert.is_none() && options.tls_key.is_none() && options.self_signed {
        IdentitySource::SelfSigned
    } else {
        IdentitySource::Missing
    }
}

/// The bytes of the `--key` argument, unless it is not base64.
pub fn key_bytes(text: &str) -> (key: Option<Vec<u8>>)
    ensures
        match key {
            Some(bytes) => base64_bytes(trimmed(text@)) == Some(bytes@),
            None => base64_bytes(trimmed(text@)) is None,
        },
{
    decode_base64(trim(text))
}

/// The flags are told apart.
proof fn lemma_flags()
    ensures
        "--listen"@.len() == 8,
        "--key"@.len() == 5,
        "--tls-cert"@.len() == 10,
        "--tls-key"@.len() == 9,
        "--state"@.len() == 7,
        "--max-tunnels-per-device"@.len() == 24,
        "--max-bridges"@.len() == 13,
        "--max-clients-per-ip"@.len() == 20,
        "--max-bridges-per-ip"@.len() == 20,
        "--max-streams-per-bridge"@.len() == 24,
        "--handshake-timeout-ms"@.len() == 22,
        "--tls-self-signed"@.len() == 17,
        "--help"@.len() == 6,
        "-h"@.len() == 2,
        "--max-clients-per-ip"@ != "--max-bridges-per-ip"@,
        "--max-tunnels-per-device"@ != "--max-streams-per-bridge"@,
{
    reveal_strlit("--listen");
    reveal_strlit("--key");
    reveal_strlit("--tls-cert");
    reveal_strlit("--tls-key");
    reveal_strlit("--state");
    reveal_strlit("--max-tunnels-per-device");
    reveal_strlit("--max-bridges");
    reveal_strlit("--max-clients-per-ip");
    reveal_strlit("--max-bridges-per-ip");
    reveal_strlit("--max-streams-per-bridge");
    reveal_strlit("--handshake-timeout-ms");
    reveal_strlit("--tls-self-signed");
    reveal_strlit("--help");
    reveal_strlit("-h");
    assert("--max-clients-per-ip"@[6] != "--max-bridges-per-ip"@[6]);
    assert("--max-tunnels-per-device"@[6] != "--max-streams-per-bridge"@[6]);
}

/// A flag that takes a text sets exactly its own option to the argument behind
/// it, and the line goes on behind that.
pub proof fn law_text_flags_set_their_option(arguments: Seq<Seq<char>>, options: OptionsView)
    requires
        arguments.len() >= 2,
    ensures
        arguments[0] == "--listen"@ ==> read(arguments, options) == read(
            arguments.skip(2),
            OptionsView { listen: arguments[1], ..options },
        ),
        arguments[0] == "--key"@ ==> read(arguments, options) == read(
            arguments.skip(2),
            OptionsView { key: Some(arguments[1]), ..options },
        ),
        arguments[0] == "--tls-cert"@ ==> read(arguments, options) == read(
            arguments.skip(2),
            OptionsView { tls_cert: Some(arguments[1]), ..options },
        ),
        arguments[0] == "--tls-key"@ ==> read(arguments, options) == read(
            arguments.skip(2),
            OptionsView { tls_key: Some(arguments[1]), ..options },
        ),
        arguments[0] == "--state"@ ==> read(arguments, options) == read(
            arguments.skip(2),
            OptionsView { state: Some(arguments[1]), ..options },
        ),
{
    lemma_flags();
}

/// At the end of the line such a flag takes its option away, but for the address
/// to listen on.
pub proof fn law_text_flags_at_the_end(arguments: Seq<Seq<char>>, options: OptionsView)
    requires
        arguments.len() == 1,
    ensures
        arguments[0] == "--listen"@ ==> read(arguments, options) == Verdict::Run(
            options,
        ),
        arguments[0] == "--key"@ ==> read(arguments, options) == Verdict::Run(
            OptionsView { key: None, ..options },
        ),
        arguments[0] == "--tls-cert"@ ==> read(arguments, options) == Verdict::Run(
            OptionsView { tls_cert: None, ..options },
        ),
        arguments[0] == "--tls-key"@ ==> read(arguments, options) == Verdict::Run(
            OptionsView { tls_key: None, ..options },
        ),
        arguments[0] == "--state"@ ==> read(arguments, options) == Verdict::Run(
            OptionsView { state: None, ..options },
        ),
{
    lemma_flags();
    reveal_with_fuel(read, 2);
}

/// A flag that takes a count sets exactly its own option to the positive number
/// behind it.
pub proof fn law_count_flags_set_their_option(
    arguments: Seq<Seq<char>>,
    options: OptionsView,
    n: usize,
)
    requires
        arguments.len() >= 2,
        number(encode_utf8(arguments[1])) == Some(n),
        n > 0,
    ensures
        arguments[0] == "--max-tunnels-per-device"@ ==> read(arguments, options) == read(
            arguments.skip(2),
            OptionsView { tunnels_per_device: n, ..options },
        ),
        arguments[0] == "--max-bridges"@ ==> read(arguments, options) == read(
            arguments.skip(2),
            OptionsView { max_bridges: n, ..options },
        ),
        arguments[0] == "--max-clients-per-ip"@ ==> read(arguments, options) == read(
            arguments.skip(2),
            OptionsView { max_clients_per_ip: n, ..options },
        ),
        arguments[0] == "--max-bridges-per-ip"@ ==> read(arguments, options) == read(
            arguments.skip(2),
            OptionsView { max_bridges_per_ip: n, ..options },
        ),
        arguments[0] == "--max-streams-per-bridge"@ ==> read(arguments, options) == read(
            arguments.skip(2),
            OptionsView { max_streams_per_bridge: n, ..options },
        ),
        arguments[0] == "--handshake-timeout-ms"@ ==> read(arguments, options) == read(
            arguments.skip(2),
            OptionsView { handshake_timeout: of_millis(n as u64), ..options },
        ),
{
    lemma_flags();
}

/// Without a positive number behind it, such a flag is refused by its name.
pub proof fn law_counts_are_positive(arguments: Seq<Seq<char>>, options: OptionsView)
    requires
        arguments.len() > 0,
        arguments.len() == 1 || number(encode_utf8(arguments[1])) is None || number(
            encode_utf8(arguments[1]),
        ) == Some(0usize),
        arguments[0] == "--max-tunnels-per-device"@ || arguments[0] == "--max-bridges"@
            || arguments[0] == "--max-clients-per-ip"@ || arguments[0] == "--max-bridges-per-ip"@
            || arguments[0] == "--max-streams-per-bridge"@
            || arguments[0] == "--handshake-timeout-ms"@,
    ensures
        read(arguments, options) == Verdict::NeedsPositive(arguments[0]),
{
    lemma_flags();
}

/// The switches: one asks for a self-signed identity, two ask for help, and
/// anything that is no flag is refused by its name; an empty line runs.
pub proof fn law_switches(arguments: Seq<Seq<char>>, options: OptionsView)
    ensures
        arguments.len() == 0 ==> read(arguments, options) == Verdict::Run(options),
        arguments.len() > 0 && arguments[0] == "--tls-self-signed"@ ==> read(arguments, options)
            == read(arguments.skip(1), OptionsView { self_signed: true, ..options }),
        arguments.len() > 0 && (arguments[0] == "--help"@ || arguments[0] == "-h"@) ==> read(
            arguments,
            options,
        ) == Verdict::Help,
        arguments.len() > 0 && arguments[0] != "--listen"@ && arguments[0] != "--key"@
            && arguments[0] != "--tls-cert"@ && arguments[0] != "--tls-key"@
            && arguments[0] != "--state"@ && arguments[0] != "--max-tunnels-per-device"@
            && arguments[0] != "--max-bridges"@ && arguments[0] != "--max-clients-per-ip"@
            && arguments[0] != "--max-bridges-per-ip"@
            && arguments[0] != "--max-streams-per-bridge"@
            && arguments[0] != "--handshake-timeout-ms"@ && arguments[0] != "--tls-self-signed"@
            && arguments[0] != "--help"@ && arguments[0] != "-h"@
            ==> read(arguments, options) == Verdict::Unknown(arguments[0]),
{
    lemma_flags();
}

/// What is served where the command line says nothing else.
pub proof fn law_defaults()
    ensures
        ({
            let options = defaults();
            &&& options.listen == seq!['0', '.', '0', '.', '0', '.', '0', ':', '4', '4', '3']
            &&& options.key is None && options.tls_cert is None && options.tls_key is None
            &&& options.state is None && !options.self_signed
            &&& options.tunnels_per_device == 8
            &&& options.max_bridges == 1024
            &&& options.max_bridges_per_ip == 32
            &&& options.max_clients_per_ip == 64
            &&& options.max_streams_per_bridge == 2048
            &&& options.handshake_timeout == of_millis(10_000)
        }),
{
    reveal_strlit("0.0.0.0:443");
    assert("0.0.0.0:443"@ =~= seq!['0', '.', '0', '.', '0', '.', '0', ':', '4', '4', '3']);
}

/// A number is read digit by digit: each further digit makes it ten times as
/// large and adds its own value, for as long as it fits.
pub proof fn law_digits_count_by_ten(text: Seq<u8>, digit: u8)
    requires
        forall|i: int| 0 <= i < text.len() ==> 48 <= (#[trigger] text[i]) <= 57,
        48 <= digit <= 57,
    ensures
        text.len() == 0 ==> number(text.push(digit)) == Some((digit - 48) as usize),
        number(text) matches Some(n) ==> {
            &&& n * 10 + (digit - 48) <= usize::MAX ==> number(text.push(digit)) == Some(
                (n * 10 + (digit - 48)) as usize,
            )
            &&& n * 10 + (digit - 48) > usize::MAX ==> number(text.push(digit)) is None
        },
        text.len() > 0 && number(text) is None ==> number(text.push(digit)) is None,
{
    let more = text.push(digit);
    assert(more.drop_last() =~= text);
    assert(more.last() == digit);
    assert(unsigned(more) == more) by {
        assert(more[0] != 43);
    }
    assert(all_digits(more)) by {
        assert forall|i: int| 0 <= i < more.len() implies 48 <= (#[trigger] more[i]) <= 57 by {
            if i < text.len() {
                assert(more[i] == text[i]);
            }
        }
    }
    if text.len() > 0 {
        assert(text[0] != 43);
        assert(unsigned(text) == text && all_digits(text));
    } else {
        assert(decimal(text) == 0);
    }
}

/// One `+` may lead a number, and changes nothing; a text without a digit, or
/// with anything else in it, is no number.
pub proof fn law_only_digits_are_numbers(text: Seq<u8>, i: int)
    ensures
        text.len() > 0 && text[0] != 43 ==> number(seq![43u8] + text) == number(text),
        text.len() == 0 ==> number(text) is None && number(seq![43u8] + text) is None,
        0 <= i < text.len() && !(48 <= text[i] <= 57) && !(i == 0 && text[i] == 43) ==> number(
            text,
        ) is None,
{
    let signed = seq![43u8] + text;
    assert(signed.skip(1) =~= text);
    if 0 <= i < text.len() && !(48 <= text[i] <= 57) && !(i == 0 && text[i] == 43) {
        let digits = unsigned(text);
        if text[0] == 43 {
            assert(digits[i - 1] == text[i]);
        } else {
            assert(digits[i] == text[i]);
        }
    }
}

/// Both files make an identity; without either, only an explicit wish makes a
/// self-signed one; and one file without the other makes none.
pub proof fn law_identity_needs_both_files_or_a_wish(self_signed: bool)
    ensures
        source_for(true, true, self_signed) == IdentitySource::Pem,
        source_for(true, false, self_signed) == IdentitySource::Missing,
        source_for(false, true, self_signed) == IdentitySource::Missing,
        source_for(false, false, true) == IdentitySource::SelfSigned,
        source_for(false, false, false) == IdentitySource::Missing,
{
}

/// What the command line comes to is what its arguments say, name for name.
pub proof fn law_verdicts_say_what_the_line_says(line: CommandLine)
    ensures
        line matches CommandLine::Run(options) ==> verdict_of(line) == Verdict::Run(options@),
        line is Help <==> verdict_of(line) is Help,
        line matches CommandLine::Unknown(argument) ==> verdict_of(line) == Verdict::Unknown(
            argument@,
        ),
        line matches CommandLine::NeedsPositive(flag) ==> verdict_of(line)
            == Verdict::NeedsPositive(flag@),
{
}

/// The arguments are read as they stand, each whole and in their order.
pub proof fn law_arguments_are_read_as_they_stand(arguments: Seq<String>, i: int)
    requires
        0 <= i < arguments.len(),
    ensures
        arguments_said(arguments).len() == arguments.len(),
        arguments_said(arguments)[i] == arguments[i]@,
{
}

/// What the options say is what they hold.
pub proof fn law_options_say_what_they_hold(options: Options)
    ensures
        options@.listen == options.listen@,
        options.key matches Some(text) ==> options@.key == Some(text@),
        options.tls_cert matches Some(text) ==> options@.tls_cert == Some(text@),
        options.tls_key matches Some(text) ==> options@.tls_key == Some(text@),
        options.state matches Some(text) ==> options@.state == Some(text@),
        options.key is None <==> options@.key is None,
        options.tls_cert is None <==> options@.tls_cert is None,
        options.tls_key is None <==> options@.tls_key is None,
        options.state is None <==> options@.state is None,
        options@.self_signed == options.self_signed,
        options@.tunnels_per_device == options.tunnels_per_device,
        options@.max_bridges == options.limits.max_bridges,
        options@.max_bridges_per_ip == options.limits.max_bridges_per_ip,
        options@.max_clients_per_ip == options.limits.max_clients_per_ip,
        options@.max_streams_per_bridge == options.limits.max_streams_per_bridge,
        options@.handshake_timeout == options.limits.handshake_timeout,
{
}

} // verus!
