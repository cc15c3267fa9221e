//! The command line.

use vstd::prelude::*;
use crate::app::texts;
use crate::archive::OutputFormat;
use crate::number::{
    digits_after, is_digit, law_decimal_round_trip, lemma_decimal_digits, number, parse_number,
};
use crate::text::{chars_of, decimal, same_text};

verus! {

/// What the arguments ask for.
#[derive(Debug)]
pub enum Command {
    /// The arguments were not understood.
    Usage,
    /// Estimate the sizes of archives of a file.
    Analyze { path: String },
    Encrypt { path: String, password: String, chunk_size: usize, format: OutputFormat },
    Decrypt { path: String, password: String },
}

/// One of the arguments is a flag, in its long or short form.
pub open spec fn has_flag(args: Seq<Seq<char>>, long: Seq<char>, short: Seq<char>) -> bool {
    exists|i: int| 0 <= i < args.len() && (#[trigger] args[i] == long || args[i] == short)
}

/// The first argument that does not begin with a dash.
pub open spec fn first_plain(args: Seq<Seq<char>>) -> Option<Seq<char>>
    decreases args.len(),
{
    if args.len() == 0 {
        None
    } else if args[0].len() > 0 && args[0][0] == '-' {
        first_plain(args.drop_first())
    } else {
        Some(args[0])
    }
}

/// The chunk size among the options: the first plain argument, and 1 if there is none or it
/// is no number.
pub open spec fn chunk_size_in(options: Seq<Seq<char>>) -> nat {
    match first_plain(options) {
        Some(text) => match number(text, usize::MAX as nat) {
            Ok(n) => n,
            Err(_) => 1,
        },
        None => 1,
    }
}

/// The format among the options: text, unless binary is asked for and text is not.
pub open spec fn format_in(options: Seq<Seq<char>>) -> OutputFormat {
    if has_flag(options, "--binary"@, "-b"@) && !has_flag(options, "--text"@, "-t"@) {
        OutputFormat::Binary
    } else {
        OutputFormat::Text
    }
}

/// The command is what the arguments, the program's name among them, ask for.
pub open spec fn asks_for(args: Seq<Seq<char>>, command: Command) -> bool {
    if args.len() < 3 {
        command is Usage
    } else if args[1] == "analyze"@ {
        command matches Command::Analyze { path } && path@ == args[2]
    } else if args.len() < 4 {
        command is Usage
    } else if args[1] == "encrypt"@ {
        command matches Command::Encrypt { path, password, chunk_size, format } && path@ == args[2]
            && password@ == args[3] && chunk_size == chunk_size_in(args.skip(4)) && format
            == format_in(args.skip(4))
    } else if args[1] == "decrypt"@ {
        command matches Command::Decrypt { path, password } && path@ == args[2] && password@ == args[3]
    } else {
        command is Usage
    }
}

/// Which command it is goes by the second argument and by how many there are.
pub proof fn law_commands(args: Seq<Seq<char>>, command: Command)
    requires
        asks_for(args, command),
    ensures
        command is Analyze <==> args.len() >= 3 && args[1] == "analyze"@,
        command is Encrypt <==> args.len() >= 4 && args[1] == "encrypt"@,
        command is Decrypt <==> args.len() >= 4 && args[1] == "decrypt"@,
        command matches Command::Analyze { path } ==> path@ == args[2],
        command matches Command::Encrypt { path, password, .. } ==> path@ == args[2] && password@
            == args[3],
        command matches Command::Decrypt { path, password } ==> path@ == args[2] && password@ == args[3],
{
    lemma_encrypt_is_no_analyze();
    reveal_strlit("decrypt");
    reveal_strlit("analyze");
    reveal_strlit("encrypt");
    assert("decrypt"@[0] != "analyze"@[0]);
    assert("decrypt"@[0] != "encrypt"@[0]);
}

/// The chunk size is the number whose decimal text is the first option without a dash,
/// whatever that number is and whatever options with a dash stand before it or any behind.
pub proof fn law_stated_chunk_size(args: Seq<Seq<char>>, command: Command, at: int, n: usize)
    requires
        asks_for(args, command),
        args.len() >= 4,
        args[1] == "encrypt"@,
        4 <= at < args.len(),
        forall|i: int| 4 <= i < at ==> (#[trigger] args[i]).len() > 0 && args[i][0] == '-',
        args[at] == decimal(n as nat),
    ensures
        command matches Command::Encrypt { path, password, chunk_size, .. } && path@ == args[2]
            && password@ == args[3] && chunk_size == n,
{
    lemma_encrypt_is_no_analyze();
    lemma_decimal_digits(n as nat);
    law_decimal_round_trip(n as nat, usize::MAX as nat);
    assert(is_digit(decimal(n as nat)[0]));
    lemma_first_plain_at(args.skip(4), at - 4);
}

/// Without an option that has no dash in front the chunk size is 1, and so it is where the
/// first such option holds a character that is no digit, the sign in front set aside.
pub proof fn law_default_chunk_size(args: Seq<Seq<char>>, command: Command, at: int)
    requires
        asks_for(args, command),
        args.len() >= 4,
        args[1] == "encrypt"@,
        4 <= at <= args.len(),
        forall|i: int| 4 <= i < at ==> (#[trigger] args[i]).len() > 0 && args[i][0] == '-',
        at < args.len() ==> args[at].len() == 0 || args[at][0] != '-' && exists|k: int|
            0 <= k < args[at].len() && !('0' <= #[trigger] args[at][k] <= '9') && (k == 0 ==> args[at][k]
                != '+'),
    ensures
        command matches Command::Encrypt { chunk_size, .. } && chunk_size == 1,
{
    lemma_encrypt_is_no_analyze();
    lemma_first_plain_at(args.skip(4), at - 4);
    if at < args.len() && args[at].len() > 0 {
        let s = args[at];
        let k = choose|k: int|
            0 <= k < s.len() && !('0' <= #[trigger] s[k] <= '9') && (k == 0 ==> s[k] != '+');
        if s[0] == '+' {
            if s.len() > 1 {
                assert(s.drop_first()[k - 1] == s[k]);
                lemma_no_digit(s.drop_first(), 0, usize::MAX as nat, k - 1);
            }
        } else {
            lemma_no_digit(s, 0, usize::MAX as nat, k);
        }
    }
}

/// The format is binary if one of the options asks for it and none for text, and text
/// otherwise.
pub proof fn law_stated_format(args: Seq<Seq<char>>, command: Command)
    requires
        asks_for(args, command),
        args.len() >= 4,
        args[1] == "encrypt"@,
    ensures
        command is Encrypt,
        command->format == OutputFormat::Binary <==> {
            &&& exists|i: int|
                4 <= i < args.len() && (#[trigger] args[i] == "--binary"@ || args[i] == "-b"@)
            &&& forall|i: int|
                4 <= i < args.len() ==> #[trigger] args[i] != "--text"@ && args[i] != "-t"@
        },
{
    lemma_encrypt_is_no_analyze();
    let options = args.skip(4);
    if has_flag(options, "--binary"@, "-b"@) {
        let i = choose|i: int|
            0 <= i < options.len() && (#[trigger] options[i] == "--binary"@ || options[i] == "-b"@);
        assert(args[i + 4] == options[i]);
    }
    if has_flag(options, "--text"@, "-t"@) {
        let i = choose|i: int|
            0 <= i < options.len() && (#[trigger] options[i] == "--text"@ || options[i] == "-t"@);
        assert(args[i + 4] == options[i]);
    }
    if exists|i: int| 4 <= i < args.len() && (#[trigger] args[i] == "--binary"@ || args[i] == "-b"@) {
        let i = choose|i: int|
            4 <= i < args.len() && (#[trigger] args[i] == "--binary"@ || args[i] == "-b"@);
        assert(options[i - 4] == args[i]);
    }
    if exists|i: int| 4 <= i < args.len() && (#[trigger] args[i] == "--text"@ || args[i] == "-t"@) {
        let i = choose|i: int|
            4 <= i < args.len() && (#[trigger] args[i] == "--text"@ || args[i] == "-t"@);
        assert(options[i - 4] == args[i]);
    }
}

proof fn lemma_encrypt_is_no_analyze()
    ensures
        "encrypt"@ != "analyze"@,
{
    reveal_strlit("encrypt");
    reveal_strlit("analyze");
    assert("encrypt"@[0] != "analyze"@[0]);
}

/// The first plain argument, by its place.
proof fn lemma_first_plain_at(options: Seq<Seq<char>>, at: int)
    requires
        0 <= at <= options.len(),
        forall|i: int| 0 <= i < at ==> (#[trigger] options[i]).len() > 0 && options[i][0] == '-',
        at < options.len() ==> options[at].len() == 0 || options[at][0] != '-',
    ensures
        first_plain(options) == if at < options.len() {
            Some(options[at])
        } else {
            None
        },
    decreases at,
{
    if at > 0 {
        let rest = options.drop_first();
        assert forall|i: int| 0 <= i < at - 1 implies (#[trigger] rest[i]).len() > 0 && rest[i][0] == '-' by {
            assert(rest[i] == options[i + 1]);
        }
        assert(options[0].len() > 0 && options[0][0] == '-');
        lemma_first_plain_at(rest, at - 1);
    }
}

/// A text with a character that is no digit is no number.
proof fn lemma_no_digit(s: Seq<char>, acc: nat, max: nat, k: int)
    requires
        0 <= k < s.len(),
        !is_digit(s[k]),
    ensures
        digits_after(s, acc, max) is Err,
    decreases k,
{
    if k > 0 && is_digit(s[0]) {
        let next = acc * 10 + (s[0] as nat - 48) as nat;
        assert(s.drop_first()[k - 1] == s[k]);
        lemma_no_digit(s.drop_first(), next, max, k - 1);
    }
}

fn any_flag(args: &Vec<String>, from: usize, long: &str, short: &str) -> (b: bool)
    requires
        from <= args@.len(),
    ensures
        b == has_flag(texts(args@).skip(from as int), long@, short@),
{
    let ghost options = texts(args@).skip(from as int);
    for i in from..args.len()
        invariant
            from <= args@.len(),
            options == texts(args@).skip(from as int),
            forall|k: int| 0 <= k < i - from ==> #[trigger] options[k] != long@ && options[k] != short@,
    {
        let chars = chars_of(args[i].as_str());
        if same_text(&chars, long) || same_text(&chars, short) {
            proof {
                assert(options[i - from] == chars@);
            }
            return true;
        }
        proof {
            assert(options[i - from] == chars@);
        }
    }
    false
}

fn stated_size(args: &Vec<String>, from: usize) -> (n: usize)
    requires
        from <= args@.len(),
    ensures
        n == chunk_size_in(texts(args@).skip(from as int)),
{
    let ghost all = texts(args@);
    for i in from..args.len()
        invariant
            from <= args@.len(),
            all == texts(args@),
            first_plain(all.skip(from as int)) == first_plain(all.skip(i as int)),
    {
        let chars = chars_of(args[i].as_str());
        proof {
            assert(all.skip(i as int)[0] == chars@);
            assert(all.skip(i as int).drop_first() =~= all.skip(i + 1));
        }
        if chars.len() == 0 || chars[0] != '-' {
            return match parse_number(&chars, usize::MAX as u64) {
                Ok(n) => n as usize,
                Err(_) => 1,
            };
        }
    }
    proof {
        assert(first_plain(all.skip(args@.len() as int)) is None);
    }
    1
}

/// Reads the arguments, the first of which is the program's name.
pub fn parse_command(args: &Vec<String>) -> (command: Command)
    ensures
        asks_for(texts(args@), command),
{
    if args.len() < 3 {
        return Command::Usage;
    }
    let name = chars_of(args[1].as_str());
    if same_text(&name, "analyze") {
        return Command::Analyze { path: args[2].as_str().to_string() };
    }
    if args.len() < 4 {
        return Command::Usage;
    }
    let path = args[2].as_str().to_string();
    let password = args[3].as_str().to_string();
    if same_text(&name, "encrypt") {
        let binary = any_flag(args, 4, "--binary", "-b");
        let text = any_flag(args, 4, "--text", "-t");
        let format = if binary && !text {
            OutputFormat::Binary
        } else {
            OutputFormat::Text
        };
        let chunk_size: usize = stated_size(args, 4);
        Command::Encrypt { path, password, chunk_size, format }
    } else if same_text(&name, "decrypt") {
        Command::Decrypt { path, password }
    } else {
        Command::Usage
    }
}

} // verus!
