//! The command line of the broker.

use vstd::prelude::*;

use crate::text;
use crate::text::{parse_unsigned, push_decimal};

verus! {

/// Where the broker listens and where it keeps its logs.
#[derive(Debug)]
pub struct Args {
    pub port: u16,
    pub data_dir: String,
}

/// What a command line asks for.
#[derive(Debug)]
pub enum Invocation {
    /// Run the broker.
    Run(Args),
    /// Print the help message.
    Help,
    /// Print this message and fail.
    Refused(String),
}

/// An `Invocation` with its texts as character sequences.
pub enum InvocationView {
    Run { port: u16, data_dir: Seq<char> },
    Help,
    Refused(Seq<char>),
}

impl View for Invocation {
    type V = InvocationView;

    open spec fn view(&self) -> InvocationView {
        match self {
            Invocation::Run(args) => InvocationView::Run {
                port: args.port,
                data_dir: args.data_dir@,
            },
            Invocation::Help => InvocationView::Help,
            Invocation::Refused(text) => InvocationView::Refused(text@),
        }
    }
}

/// Arguments by their characters.
pub open spec fn words(raw: Seq<String>) -> Seq<Seq<char>> {
    Seq::new(raw.len(), |i: int| raw[i]@)
}

/// What the arguments from the `i`th on ask for, with this port and this
/// directory unless they say otherwise.
pub open spec fn invocation(
    raw: Seq<Seq<char>>,
    i: int,
    port: u16,
    data_dir: Seq<char>,
) -> InvocationView
    decreases raw.len() - i,
{
    if i < 0 || i >= raw.len() {
        InvocationView::Run { port, data_dir }
    } else if raw[i] == "--port"@ {
        if i + 1 < raw.len() && text::parsed(raw[i + 1], 65535) is Some {
            invocation(raw, i + 2, text::parsed(raw[i + 1], 65535)->0 as u16, data_dir)
        } else {
            InvocationView::Refused("error: --port requires a valid u16"@)
        }
    } else if raw[i] == "--data-dir"@ {
        if i + 1 < raw.len() {
            invocation(raw, i + 2, port, raw[i + 1])
        } else {
            InvocationView::Refused("error: --data-dir requires a path"@)
        }
    } else if raw[i] == "--help"@ || raw[i] == "-h"@ {
        InvocationView::Help
    } else {
        InvocationView::Refused("error: unknown argument '"@ + raw[i] + "'"@)
    }
}

/// What a command line asks for. Its first word is the name of the program; the
/// port is 9876 and the directory `./data` unless it says otherwise.
pub fn parse_args(raw: &Vec<String>) -> (r: Invocation)
    ensures
        r@ == invocation(words(raw@), 1, 9876, "./data"@),
{
    let port_flag: String = String::from_str("--port");
    let dir_flag: String = String::from_str("--data-dir");
    let help_flag: String = String::from_str("--help");
    let short_help_flag: String = String::from_str("-h");
    let mut port: u16 = 9876;
    let mut data_dir: String = String::from_str("./data");
    let ghost all = words(raw@);
    let n: usize = raw.len();
    let mut i: usize = 1;
    while i < n
        invariant
            n == raw@.len(),
            1 <= i,
            all == words(raw@),
            port_flag@ == "--port"@,
            dir_flag@ == "--data-dir"@,
            help_flag@ == "--help"@,
            short_help_flag@ == "-h"@,
            invocation(all, 1, 9876, "./data"@) == invocation(all, i as int, port, data_dir@),
        decreases n - i,
    {
        let arg: &String = &raw[i];
        assert(all[i as int] == arg@);
        if *arg == port_flag {
            if i + 1 >= n {
                return Invocation::Refused(String::from_str("error: --port requires a valid u16"));
            }
            assert(all[i + 1] == raw@[i + 1]@);
            match parse_unsigned(raw[i + 1].as_str(), 65535) {
                Some(value) => {
                    port = value as u16;
                },
                None => {
                    return Invocation::Refused(
                        String::from_str("error: --port requires a valid u16"),
                    );
                },
            }
            if n - i <= 2 {
                i = n;
            } else {
                i = i + 2;
            }
        } else if *arg == dir_flag {
            if i + 1 >= n {
                return Invocation::Refused(String::from_str("error: --data-dir requires a path"));
            }
            assert(all[i + 1] == raw@[i + 1]@);
            data_dir = String::from_str(raw[i + 1].as_str());
            if n - i <= 2 {
                i = n;
            } else {
                i = i + 2;
            }
        } else if *arg == help_flag || *arg == short_help_flag {
            return Invocation::Help;
        } else {
            let mut message: String = String::from_str("error: unknown argument '");
            message.append(arg.as_str());
            message.append("'");
            return Invocation::Refused(message);
        }
    }
    Invocation::Run(Args { port, data_dir })
}

/// The address that the broker listens on.
pub fn listen_addr(port: u16) -> (addr: String)
    ensures
        addr@ == "0.0.0.0:"@ + text::decimal(port as nat),
{
    let mut addr: String = String::from_str("0.0.0.0:");
    push_decimal(&mut addr, port as u64);
    addr
}

} // verus!
