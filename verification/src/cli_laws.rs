//! What a command line asks for, argument by argument.

use vstd::prelude::*;

use crate::cli;
use crate::cli::InvocationView;
use crate::number_laws;

verus! {

/// Arguments are taken from left to right. `--port` takes a number of 16 bits, and the next
/// argument is then looked at with that port; `--data-dir` takes any argument, and the next
/// one is then looked at with that directory; `--help` and `-h` end it with the help
/// message, and anything else with a message that shows it. Where there are no more
/// arguments the broker runs with what they said.
pub proof fn law_arguments_from_left_to_right(
    raw: Seq<Seq<char>>,
    i: int,
    port: u16,
    data_dir: Seq<char>,
)
    requires
        0 <= i,
    ensures
        i >= raw.len() ==> cli::invocation(raw, i, port, data_dir) == (InvocationView::Run {
            port,
            data_dir,
        }),
        i < raw.len() && raw[i] == "--port"@ ==> {
            let valid = i + 1 < raw.len() && number_laws::is_digits(
                number_laws::unsigned(raw[i + 1]),
            ) && number_laws::read_as_decimal(number_laws::unsigned(raw[i + 1])) <= 65_535;
            if valid {
                cli::invocation(raw, i, port, data_dir) == cli::invocation(
                    raw,
                    i + 2,
                    number_laws::read_as_decimal(number_laws::unsigned(raw[i + 1])) as u16,
                    data_dir,
                )
            } else {
                cli::invocation(raw, i, port, data_dir) == InvocationView::Refused(
                    "error: --port requires a valid u16"@,
                )
            }
        },
        i < raw.len() && raw[i] == "--data-dir"@ ==> {
            if i + 1 < raw.len() {
                cli::invocation(raw, i, port, data_dir) == cli::invocation(
                    raw,
                    i + 2,
                    port,
                    raw[i + 1],
                )
            } else {
                cli::invocation(raw, i, port, data_dir) == InvocationView::Refused(
                    "error: --data-dir requires a path"@,
                )
            }
        },
        i < raw.len() && (raw[i] == "--help"@ || raw[i] == "-h"@) ==> cli::invocation(
            raw,
            i,
            port,
            data_dir,
        ) == InvocationView::Help,
        i < raw.len() && raw[i] != "--port"@ && raw[i] != "--data-dir"@ && raw[i] != "--help"@
            && raw[i] != "-h"@ ==> cli::invocation(raw, i, port, data_dir)
            == InvocationView::Refused("error: unknown argument '"@ + raw[i] + "'"@),
{
    reveal_strlit("--port");
    reveal_strlit("--data-dir");
    reveal_strlit("--help");
    reveal_strlit("-h");
    assert("--port"@.len() == 6 && "--data-dir"@.len() == 10 && "--help"@.len() == 6
        && "-h"@.len() == 2);
    assert("--port"@[2] == 'p' && "--help"@[2] == 'h');
    if i + 1 < raw.len() {
        number_laws::law_text_is_read_as_decimal(raw[i + 1], 65535);
    }
}

/// Arguments are words, and a word is its characters.
pub proof fn law_words(raw: Seq<String>, i: int)
    ensures
        cli::words(raw).len() == raw.len(),
        0 <= i < raw.len() ==> cli::words(raw)[i] == raw[i]@,
{
}

} // verus!
