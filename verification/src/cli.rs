//! The command line: commands, options, and the parsing of arguments.
use vstd::prelude::*;
use crate::analysis::filters::{default_filter_spec, AnalysisFilter, DependencyLayer, LayerSelection};
use crate::analysis::lenses::{expanded, lens_named, LensKind};
use crate::analysis::structure::StructuralMode;
use crate::error::SieveError;
use crate::report::OutputFormat;
use crate::strings::{chars_of, copy_text, copy_texts, starts_with_text, text_eq, text_from, texts_view};

verus! {

/// What the command line asks for.
#[derive(Clone, Debug)]
pub enum Command {
    Discover,
    Inspect(String),
    Summary,
    Declaration(String),
    ProofSteps(String),
    Dependencies(String),
    Dependents(String),
    Path(String, String),
    Rank(String),
    Compare(String, String),
    Duplicates,
    RepeatedStructures,
    Modules,
    Graph,
    Export(String),
    Serve,
    LegacyDeclarations(Vec<String>),
    Help,
}

/// The command names that take no arguments, with the command each names.
pub open spec fn bare_command(c: Seq<char>) -> Option<Command> {
    if c == "discover"@ {
        Some(Command::Discover)
    } else if c == "summary"@ {
        Some(Command::Summary)
    } else if c == "duplicates"@ {
        Some(Command::Duplicates)
    } else if c == "repeated-structures"@ {
        Some(Command::RepeatedStructures)
    } else if c == "modules"@ {
        Some(Command::Modules)
    } else if c == "graph"@ {
        Some(Command::Graph)
    } else if c == "serve"@ {
        Some(Command::Serve)
    } else {
        None
    }
}

/// The usage line of a command that takes one argument.
pub open spec fn one_argument_usage(c: Seq<char>) -> Option<Seq<char>> {
    if c == "inspect"@ {
        Some("sieve inspect <name>"@)
    } else if c == "declaration"@ {
        Some("sieve declaration <name>"@)
    } else if c == "proof-steps"@ {
        Some("sieve proof-steps <name>"@)
    } else if c == "dependencies"@ {
        Some("sieve dependencies <name>"@)
    } else if c == "dependents"@ {
        Some("sieve dependents <name>"@)
    } else if c == "rank"@ {
        Some("sieve rank <metric>"@)
    } else if c == "export"@ {
        Some("sieve export <nodes|edges|modules|metrics>"@)
    } else {
        None
    }
}

/// The command `c` with the argument `x`.
pub open spec fn one_argument_command(c: Seq<char>, r: Command, x: Seq<char>) -> bool {
    if c == "inspect"@ {
        r matches Command::Inspect(a) && a@ == x
    } else if c == "declaration"@ {
        r matches Command::Declaration(a) && a@ == x
    } else if c == "proof-steps"@ {
        r matches Command::ProofSteps(a) && a@ == x
    } else if c == "dependencies"@ {
        r matches Command::Dependencies(a) && a@ == x
    } else if c == "dependents"@ {
        r matches Command::Dependents(a) && a@ == x
    } else if c == "rank"@ {
        r matches Command::Rank(a) && a@ == x
    } else {
        r matches Command::Export(a) && a@ == x
    }
}

/// `r` is what the positional arguments `args` ask for: no arguments ask
/// for the summary; a known command name with the right number of
/// arguments for that command (an error with its usage otherwise); any
/// other words are declaration names for the legacy report.
pub open spec fn command_parsed(args: Seq<Seq<char>>, r: Result<Command, SieveError>) -> bool {
    if args.len() == 0 {
        r matches Ok(Command::Summary)
    } else {
        let c = args[0];
        let rest = args.drop_first();
        if bare_command(c) is Some {
            if rest.len() == 0 {
                r matches Ok(x) && x == bare_command(c)->0
            } else {
                r matches Err(e) && e.message@ == c + " takes no arguments"@
            }
        } else if one_argument_usage(c) is Some {
            if rest.len() == 1 {
                r matches Ok(x) && one_argument_command(c, x, rest[0])
            } else {
                r matches Err(e) && e.message@ == "usage: "@ + one_argument_usage(c)->0
            }
        } else if c == "path"@ || c == "compare"@ {
            if rest.len() == 2 {
                r matches Ok(x) && if c == "path"@ {
                    x matches Command::Path(a, b) && a@ == rest[0] && b@ == rest[1]
                } else {
                    x matches Command::Compare(a, b) && a@ == rest[0] && b@ == rest[1]
                }
            } else {
                r matches Err(e) && e.message@ == if c == "path"@ {
                    "usage: sieve path <source> <target>"@
                } else {
                    "usage: sieve compare <left> <right>"@
                }
            }
        } else if c == "help"@ {
            r matches Ok(Command::Help)
        } else {
            r matches Ok(Command::LegacyDeclarations(v)) && texts_view(v@) == args
        }
    }
}

/// Parses the positional arguments into a command.
pub fn parse_command(args: Vec<String>) -> (r: Result<Command, SieveError>)
    ensures
        command_parsed(texts_view(args@), r),
{
    let ghost all = texts_view(args@);
    if args.len() == 0 {
        return Ok(Command::Summary);
    }
    let command = args[0].as_str();
    let rest = args.len() - 1;
    proof {
        assert(all.drop_first().len() == rest);
        assert(all[0] == command@);
    }
    let bare = if text_eq(command, "discover") {
        Some(Command::Discover)
    } else if text_eq(command, "summary") {
        Some(Command::Summary)
    } else if text_eq(command, "duplicates") {
        Some(Command::Duplicates)
    } else if text_eq(command, "repeated-structures") {
        Some(Command::RepeatedStructures)
    } else if text_eq(command, "modules") {
        Some(Command::Modules)
    } else if text_eq(command, "graph") {
        Some(Command::Graph)
    } else if text_eq(command, "serve") {
        Some(Command::Serve)
    } else {
        None
    };
    match bare {
        Some(c) => {
            if rest == 0 {
                return Ok(c);
            }
            return Err(SieveError::about_suffix(command, " takes no arguments"));
        },
        None => {},
    }
    let usage = if text_eq(command, "inspect") {
        Some("sieve inspect <name>")
    } else if text_eq(command, "declaration") {
        Some("sieve declaration <name>")
    } else if text_eq(command, "proof-steps") {
        Some("sieve proof-steps <name>")
    } else if text_eq(command, "dependencies") {
        Some("sieve dependencies <name>")
    } else if text_eq(command, "dependents") {
        Some("sieve dependents <name>")
    } else if text_eq(command, "rank") {
        Some("sieve rank <metric>")
    } else if text_eq(command, "export") {
        Some("sieve export <nodes|edges|modules|metrics>")
    } else {
        None
    };
    match usage {
        Some(u) => {
            if rest != 1 {
                return Err(SieveError::about("usage: ", u));
            }
            let x = copy_text(&args[1]);
            proof {
                assert(all.drop_first()[0] == all[1]);
            }
            let c = if text_eq(command, "inspect") {
                Command::Inspect(x)
            } else if text_eq(command, "declaration") {
                Command::Declaration(x)
            } else if text_eq(command, "proof-steps") {
                Command::ProofSteps(x)
            } else if text_eq(command, "dependencies") {
                Command::Dependencies(x)
            } else if text_eq(command, "dependents") {
                Command::Dependents(x)
            } else if text_eq(command, "rank") {
                Command::Rank(x)
            } else {
                Command::Export(x)
            };
            return Ok(c);
        },
        None => {},
    }
    let is_path = text_eq(command, "path");
    if is_path || text_eq(command, "compare") {
        if rest != 2 {
            if is_path {
                return Err(SieveError::new("usage: sieve path <source> <target>"));
            }
            return Err(SieveError::new("usage: sieve compare <left> <right>"));
        }
        let a = copy_text(&args[1]);
        let b = copy_text(&args[2]);
        proof {
            assert(all.drop_first()[0] == all[1]);
            assert(all.drop_first()[1] == all[2]);
        }
        if is_path {
            return Ok(Command::Path(a, b));
        }
        return Ok(Command::Compare(a, b));
    }
    if text_eq(command, "help") {
        return Ok(Command::Help);
    }
    Ok(Command::LegacyDeclarations(copy_texts(&args)))
}

/// The usage text.
pub fn usage() -> (r: &'static str)
    ensures
        r@ == "Sieve — analysis of elaborated Lean declarations\n\nCommands:\n  discover [--lens influence|bridge|neighbors|all]\n  inspect <name> [--lens influence|bridge|neighbors|proof|trust|all]\n  serve [--port N]\n  summary\n  declaration <name>\n  proof-steps <name> [--step ID] [--format text|json]\n  dependencies <name> [--transitive]\n  dependents <name> [--transitive]\n  path <source> <target>\n  rank <metric>\n  compare <left> <right>\n  duplicates\n  repeated-structures\n  modules\n  graph\n  export <nodes|edges|modules|metrics|duplicates|repeated>\n\nCommon options:\n  --lens influence|bridge|neighbors|proof|trust|all\n  --layer statement|proof|both\n  --include-generated\n  --include-infrastructure\n  --internal-only\n  --source-backed-only\n  --weighted\n  --max-depth N\n  --limit N\n  --format text|json|csv\n  --histogram-buckets N,N,...\n"@,
{
    "Sieve — analysis of elaborated Lean declarations\n\nCommands:\n  discover [--lens influence|bridge|neighbors|all]\n  inspect <name> [--lens influence|bridge|neighbors|proof|trust|all]\n  serve [--port N]\n  summary\n  declaration <name>\n  proof-steps <name> [--step ID] [--format text|json]\n  dependencies <name> [--transitive]\n  dependents <name> [--transitive]\n  path <source> <target>\n  rank <metric>\n  compare <left> <right>\n  duplicates\n  repeated-structures\n  modules\n  graph\n  export <nodes|edges|modules|metrics|duplicates|repeated>\n\nCommon options:\n  --lens influence|bridge|neighbors|proof|trust|all\n  --layer statement|proof|both\n  --include-generated\n  --include-infrastructure\n  --internal-only\n  --source-backed-only\n  --weighted\n  --max-depth N\n  --limit N\n  --format text|json|csv\n  --histogram-buckets N,N,...\n"
}

/// The single layer a selection stands for: the proof layer for the proof
/// selection, the statement layer otherwise.
pub fn selected_layer(selection: LayerSelection) -> (r: DependencyLayer)
    ensures
        r == match selection {
            LayerSelection::Proof => DependencyLayer::Proof,
            _ => DependencyLayer::Statement,
        },
{
    match selection {
        LayerSelection::Proof => DependencyLayer::Proof,
        LayerSelection::Statement | LayerSelection::Both => DependencyLayer::Statement,
    }
}

/// The value of a string of decimal digits.
pub open spec fn digits_value(s: Seq<char>) -> nat
    decreases s.len(),
{
    if s.len() == 0 {
        0
    } else {
        digits_value(s.drop_last()) * 10 + (s.last() as nat - 48) as nat
    }
}

/// Every character is a decimal digit.
pub open spec fn all_digits(s: Seq<char>) -> bool {
    forall|i: int| 0 <= i < s.len() ==> '0' <= #[trigger] s[i] <= '9'
}

/// The unsigned number the text spells, as Rust reads one: an optional `+`
/// and at least one digit, at most `max`.
pub open spec fn unsigned_text(s: Seq<char>, max: nat) -> Option<nat> {
    let d = if s.len() > 0 && s[0] == '+' { s.drop_first() } else { s };
    if d.len() > 0 && all_digits(d) && digits_value(d) <= max { Some(digits_value(d)) } else { None }
}

/// Reads an unsigned number of at most `max`.
pub fn parse_unsigned(s: &str, max: u64) -> (r: Option<u64>)
    ensures
        match r {
            Some(v) => unsigned_text(s@, max as nat) == Some(v as nat),
            None => unsigned_text(s@, max as nat) is None,
        },
{
    let chars = chars_of(s);
    let start: usize = if chars.len() > 0 && chars[0] == '+' { 1 } else { 0 };
    let ghost d = if s@.len() > 0 && s@[0] == '+' { s@.drop_first() } else { s@ };
    proof {
        assert(d == chars@.skip(start as int));
    }
    let mut value: u64 = 0;
    let mut too_big = false;
    let mut digits = true;
    let mut i: usize = start;
    while i < chars.len()
        invariant
            chars@ == s@,
            start <= i <= chars@.len(),
            d == chars@.skip(start as int),
            digits == all_digits(d.take(i - start)),
            digits && !too_big ==> value == digits_value(d.take(i - start)) && value <= max,
            digits && too_big ==> digits_value(d.take(i - start)) > max,
        decreases chars@.len() - i,
    {
        let c = chars[i];
        proof {
            assert(d.take(i - start + 1) == d.take(i - start).push(c));
            assert(d.take(i - start + 1).drop_last() == d.take(i - start));
        }
        if c < '0' || c > '9' {
            digits = false;
            proof {
                assert(!all_digits(d.take(i - start + 1))) by {
                    assert(d.take(i - start + 1)[i - start] == c);
                }
            }
        } else if digits {
            proof {
                assert forall|k: int| 0 <= k < i - start + 1 implies '0' <= #[trigger] d.take(i - start + 1)[k] <= '9' by {
                    if k < i - start {
                        assert(d.take(i - start + 1)[k] == d.take(i - start)[k]);
                    }
                }
            }
            let dd: u64 = (c as u32 - 48) as u64;
            if !too_big {
                let next: u128 = value as u128 * 10 + dd as u128;
                if next > max as u128 {
                    too_big = true;
                } else {
                    value = next as u64;
                }
            }
        } else {
            proof {
                assert(!all_digits(d.take(i - start + 1))) by {
                    let k = choose|k: int| 0 <= k < i - start && !('0' <= #[trigger] d.take(i - start)[k] <= '9');
                    assert(d.take(i - start + 1)[k] == d.take(i - start)[k]);
                }
            }
        }
        i = i + 1;
    }
    proof {
        assert(d.take(i - start) == d);
    }
    if i == start || !digits || too_big {
        None
    } else {
        Some(value)
    }
}

/// The options that take a value.
pub open spec fn value_flag(a: Seq<char>) -> bool {
    a == "--layer"@ || a == "--lens"@ || a == "--kind"@ || a == "--module"@ || a == "--max-depth"@ || a == "--limit"@
        || a == "--tree-depth"@ || a == "--minimum-size"@ || a == "--minimum-support"@ || a == "--histogram-buckets"@
        || a == "--format"@ || a == "--port"@ || a == "--step"@
}

/// The options that stand alone.
pub open spec fn plain_flag(a: Seq<char>) -> bool {
    a == "--include-generated"@ || a == "--include-infrastructure"@ || a == "--internal-only"@ || a == "--source-backed-only"@
        || a == "--weighted"@ || a == "--transitive"@ || a == "--exact"@ || a == "--alpha"@ || a == "-h"@ || a == "--help"@
}

/// Argument `i` is the value of the option before it.
pub open spec fn is_value(args: Seq<Seq<char>>, i: int) -> bool
    decreases i,
{
    if i <= 0 || i > args.len() {
        false
    } else {
        !is_value(args, i - 1) && value_flag(args[i - 1])
    }
}

/// What an option says where its value is missing.
pub open spec fn missing_message(a: Seq<char>) -> Seq<char> {
    if a == "--layer"@ {
        "--layer requires statement, proof, or both"@
    } else if a == "--lens"@ {
        "--lens requires a lens name"@
    } else if a == "--kind"@ {
        "--kind requires a declaration kind"@
    } else if a == "--module"@ {
        "--module requires a module name"@
    } else if a == "--histogram-buckets"@ {
        "--histogram-buckets requires comma-separated numbers"@
    } else if a == "--format"@ {
        "--format requires text, json, or csv"@
    } else if a == "--step"@ {
        "--step requires a numeric proof-step id"@
    } else {
        a + " requires a number"@
    }
}

/// The layer selection a layer name selects.
pub open spec fn layer_named(v: Seq<char>) -> Option<LayerSelection> {
    if v == "statement"@ {
        Some(LayerSelection::Statement)
    } else if v == "proof"@ || v == "value"@ {
        Some(LayerSelection::Proof)
    } else if v == "both"@ {
        Some(LayerSelection::Both)
    } else {
        None
    }
}

/// The output format a format name selects.
pub open spec fn format_named(v: Seq<char>) -> Option<OutputFormat> {
    if v == "text"@ {
        Some(OutputFormat::Text)
    } else if v == "json"@ {
        Some(OutputFormat::Json)
    } else if v == "csv"@ {
        Some(OutputFormat::Csv)
    } else {
        None
    }
}

/// What an option says of a value it cannot read; none where it can.
pub open spec fn value_error(a: Seq<char>, v: Seq<char>) -> Option<Seq<char>> {
    let max = usize::MAX as nat;
    if a == "--layer"@ && layer_named(v) is None {
        Some("invalid layer "@ + v)
    } else if a == "--lens"@ && lens_named(v) is None {
        Some("unknown lens "@ + v)
    } else if a == "--format"@ && format_named(v) is None {
        Some("invalid output format "@ + v)
    } else if a == "--max-depth"@ && unsigned_text(v, max) is None {
        Some("invalid maximum depth"@)
    } else if a == "--limit"@ && unsigned_text(v, max) is None {
        Some("invalid result limit"@)
    } else if a == "--tree-depth"@ && unsigned_text(v, max) is None {
        Some("invalid tree depth"@)
    } else if a == "--minimum-size"@ && unsigned_text(v, max) is None {
        Some("invalid minimum size"@)
    } else if a == "--minimum-support"@ && unsigned_text(v, max) is None {
        Some("invalid minimum support"@)
    } else if a == "--port"@ && unsigned_text(v, 65535) is None {
        Some("invalid port"@)
    } else if a == "--step"@ && unsigned_text(v, max) is None {
        Some("invalid proof-step id"@)
    } else {
        None
    }
}

/// The error that argument `i`, read as an option or a word, raises.
pub open spec fn error_at(args: Seq<Seq<char>>, i: int) -> Option<Seq<char>> {
    let a = args[i];
    if value_flag(a) {
        if i + 1 >= args.len() { Some(missing_message(a)) } else { value_error(a, args[i + 1]) }
    } else if plain_flag(a) {
        None
    } else if a.len() > 0 && a[0] == '-' {
        Some("unknown option "@ + a)
    } else {
        None
    }
}

/// No argument before `n` raises an error.
pub open spec fn clean_upto(args: Seq<Seq<char>>, n: int) -> bool {
    forall|i: int| 0 <= i < n && !is_value(args, i) ==> #[trigger] error_at(args, i) is None
}

/// The value given last to option `flag` among the first `n` arguments.
pub open spec fn last_value(args: Seq<Seq<char>>, n: int, flag: Seq<char>) -> Option<Seq<char>>
    decreases n,
{
    if n <= 0 || n > args.len() {
        None
    } else if is_value(args, n - 1) && args[n - 2] == flag {
        Some(args[n - 1])
    } else {
        last_value(args, n - 1, flag)
    }
}

/// Option `flag` stands among the first `n` arguments.
pub open spec fn flag_seen(args: Seq<Seq<char>>, n: int, flag: Seq<char>) -> bool {
    exists|i: int| 0 <= i < n && !is_value(args, i) && #[trigger] args[i] == flag
}

/// The mode the last of `--exact` and `--alpha` among the first `n`
/// arguments selects.
pub open spec fn mode_upto(args: Seq<Seq<char>>, n: int) -> StructuralMode
    decreases n,
{
    if n <= 0 || n > args.len() {
        StructuralMode::AlphaEquivalent
    } else if is_value(args, n - 1) || value_flag(args[n - 1]) {
        mode_upto(args, n - 1)
    } else if args[n - 1] == "--exact"@ {
        StructuralMode::Exact
    } else if args[n - 1] == "--alpha"@ {
        StructuralMode::AlphaEquivalent
    } else {
        mode_upto(args, n - 1)
    }
}

/// The words among the first `n` arguments, with `help` for each `-h` or
/// `--help`.
pub open spec fn words_upto(args: Seq<Seq<char>>, n: int) -> Seq<Seq<char>>
    decreases n,
{
    if n <= 0 || n > args.len() {
        Seq::empty()
    } else if is_value(args, n - 1) || value_flag(args[n - 1]) {
        words_upto(args, n - 1)
    } else if args[n - 1] == "-h"@ || args[n - 1] == "--help"@ {
        words_upto(args, n - 1).push("help"@)
    } else if plain_flag(args[n - 1]) || (args[n - 1].len() > 0 && args[n - 1][0] == '-') {
        words_upto(args, n - 1)
    } else {
        words_upto(args, n - 1).push(args[n - 1])
    }
}

/// The number option `flag` was given last, or `default`.
pub open spec fn number_option(args: Seq<Seq<char>>, flag: Seq<char>, limit: nat, default: nat) -> nat {
    match last_value(args, args.len() as int, flag) {
        Some(v) => unsigned_text(v, limit)->0,
        None => default,
    }
}

/// Argument `i` is the first that raises an error.
pub open spec fn first_error(args: Seq<Seq<char>>, i: int) -> bool {
    0 <= i < args.len() && !is_value(args, i) && clean_upto(args, i) && error_at(args, i) is Some
}

/// The lens the command line selects.
pub open spec fn lens_given(args: Seq<Seq<char>>) -> LensKind {
    match last_value(args, args.len() as int, "--lens"@) {
        Some(v) => lens_named(v)->0,
        None => LensKind::All,
    }
}

/// The output format the command line selects.
pub open spec fn format_given(args: Seq<Seq<char>>) -> OutputFormat {
    match last_value(args, args.len() as int, "--format"@) {
        Some(v) => format_named(v)->0,
        None => OutputFormat::Text,
    }
}

/// What refuses a command together with the lens and format chosen.
pub open spec fn conflict_message(c: Command, args: Seq<Seq<char>>) -> Option<Seq<char>> {
    if c is Discover && (lens_given(args) == LensKind::Proof || lens_given(args) == LensKind::Trust) {
        Some("discover supports influence, bridge, neighbors, or all"@)
    } else if (c is Discover || c is Inspect) && format_given(args) == OutputFormat::Csv {
        Some("discover and inspect support --format text or json"@)
    } else {
        None
    }
}

/// The command line is accepted and read as `o`.
pub open spec fn arguments_read(args: Seq<Seq<char>>, o: CliOptions) -> bool {
    &&& clean_upto(args, args.len() as int)
    &&& options_read(args, o)
    &&& command_parsed(words_upto(args, args.len() as int), Ok(o.command))
    &&& conflict_message(o.command, args) is None
}

/// The command line is refused with `message`.
pub open spec fn arguments_refused(args: Seq<Seq<char>>, message: Seq<char>) -> bool {
    ||| exists|i: int| #[trigger] first_error(args, i) && error_at(args, i) == Some(message)
    ||| clean_upto(args, args.len() as int) && {
        let w = words_upto(args, args.len() as int);
        ||| exists|e: SieveError| #[trigger] command_parsed(w, Err(e)) && e.message@ == message
        ||| exists|c: Command| #[trigger] command_parsed(w, Ok(c)) && conflict_message(c, args) == Some(message)
    }
}

/// The options the command line gives besides the command.
pub open spec fn options_read(args: Seq<Seq<char>>, o: CliOptions) -> bool {
    let n = args.len() as int;
    &&& o.filter.include_generated == flag_seen(args, n, "--include-generated"@)
    &&& o.filter.include_infrastructure == flag_seen(args, n, "--include-infrastructure"@)
    &&& o.filter.internal_only == flag_seen(args, n, "--internal-only"@)
    &&& o.filter.source_backed_only == flag_seen(args, n, "--source-backed-only"@)
    &&& crate::strings::opt_view(&o.filter.declaration_kind) == last_value(args, n, "--kind"@)
    &&& crate::strings::opt_view(&o.filter.module) == last_value(args, n, "--module"@)
    &&& o.filter.layer == match last_value(args, n, "--layer"@) { Some(v) => layer_named(v)->0, None => LayerSelection::Both }
    &&& o.layer_explicit == flag_seen(args, n, "--layer"@)
    &&& o.lens == lens_given(args)
    &&& o.format == format_given(args)
    &&& o.weighted == flag_seen(args, n, "--weighted"@)
    &&& o.transitive == flag_seen(args, n, "--transitive"@)
    &&& o.max_depth == number_option(args, "--max-depth"@, usize::MAX as nat, 32)
    &&& o.limit == number_option(args, "--limit"@, usize::MAX as nat, 100)
    &&& o.tree_depth == match last_value(args, n, "--tree-depth"@) {
        Some(v) => Some(unsigned_text(v, usize::MAX as nat)->0 as usize),
        None => None,
    }
    &&& o.minimum_size == number_option(args, "--minimum-size"@, usize::MAX as nat, 4)
    &&& o.minimum_support == number_option(args, "--minimum-support"@, usize::MAX as nat, 2)
    &&& o.structural_mode == mode_upto(args, n)
    &&& crate::strings::opt_view(&o.histogram_buckets) == last_value(args, n, "--histogram-buckets"@)
    &&& o.port == number_option(args, "--port"@, 65535, 4173)
    &&& o.selected_step == match last_value(args, n, "--step"@) {
        Some(v) => Some(unsigned_text(v, usize::MAX as nat)->0 as usize),
        None => None,
    }
}

/// The command line, read: the command and its options, with the bucket
/// list of `--histogram-buckets` as given.
#[derive(Clone, Debug)]
pub struct CliOptions {
    pub command: Command,
    pub filter: AnalysisFilter,
    pub format: OutputFormat,
    pub weighted: bool,
    pub transitive: bool,
    pub max_depth: usize,
    pub limit: usize,
    pub tree_depth: Option<usize>,
    pub minimum_size: usize,
    pub minimum_support: usize,
    pub structural_mode: StructuralMode,
    pub histogram_buckets: Option<String>,
    pub port: u16,
    pub selected_step: Option<usize>,
    pub lens: LensKind,
    pub layer_explicit: bool,
}

fn is_value_flag(a: &str) -> (r: bool)
    ensures
        r == value_flag(a@),
{
    text_eq(a, "--layer") || text_eq(a, "--lens") || text_eq(a, "--kind") || text_eq(a, "--module") || text_eq(a, "--max-depth")
        || text_eq(a, "--limit") || text_eq(a, "--tree-depth") || text_eq(a, "--minimum-size") || text_eq(a, "--minimum-support")
        || text_eq(a, "--histogram-buckets") || text_eq(a, "--format") || text_eq(a, "--port") || text_eq(a, "--step")
}

fn is_plain_flag(a: &str) -> (r: bool)
    ensures
        r == plain_flag(a@),
{
    text_eq(a, "--include-generated") || text_eq(a, "--include-infrastructure") || text_eq(a, "--internal-only")
        || text_eq(a, "--source-backed-only") || text_eq(a, "--weighted") || text_eq(a, "--transitive") || text_eq(a, "--exact")
        || text_eq(a, "--alpha") || text_eq(a, "-h") || text_eq(a, "--help")
}

fn dash_first(a: &str) -> (r: bool)
    ensures
        r == (a@.len() > 0 && a@[0] == '-'),
{
    let chars = chars_of(a);
    chars.len() > 0 && chars[0] == '-'
}

fn missing_text(a: &str) -> (r: String)
    ensures
        r@ == missing_message(a@),
{
    if text_eq(a, "--layer") {
        text_from("--layer requires statement, proof, or both")
    } else if text_eq(a, "--lens") {
        text_from("--lens requires a lens name")
    } else if text_eq(a, "--kind") {
        text_from("--kind requires a declaration kind")
    } else if text_eq(a, "--module") {
        text_from("--module requires a module name")
    } else if text_eq(a, "--histogram-buckets") {
        text_from("--histogram-buckets requires comma-separated numbers")
    } else if text_eq(a, "--format") {
        text_from("--format requires text, json, or csv")
    } else if text_eq(a, "--step") {
        text_from("--step requires a numeric proof-step id")
    } else {
        let mut t = text_from(a);
        crate::strings::append_text(&mut t, " requires a number");
        t
    }
}

fn layer_of(v: &str) -> (r: Option<LayerSelection>)
    ensures
        r == layer_named(v@),
{
    if text_eq(v, "statement") {
        Some(LayerSelection::Statement)
    } else if text_eq(v, "proof") || text_eq(v, "value") {
        Some(LayerSelection::Proof)
    } else if text_eq(v, "both") {
        Some(LayerSelection::Both)
    } else {
        None
    }
}

fn format_of(v: &str) -> (r: Option<OutputFormat>)
    ensures
        r == format_named(v@),
{
    if text_eq(v, "text") {
        Some(OutputFormat::Text)
    } else if text_eq(v, "json") {
        Some(OutputFormat::Json)
    } else if text_eq(v, "csv") {
        Some(OutputFormat::Csv)
    } else {
        None
    }
}

fn value_problem(a: &str, v: &str) -> (r: Option<String>)
    ensures
        crate::strings::opt_view(&r) == value_error(a@, v@),
{
    let max = usize::MAX as u64;
    if text_eq(a, "--layer") && layer_of(v).is_none() {
        Some(SieveError::about("invalid layer ", v).message)
    } else if text_eq(a, "--lens") && LensKind::parse(v).is_err() {
        Some(SieveError::about("unknown lens ", v).message)
    } else if text_eq(a, "--format") && format_of(v).is_none() {
        Some(SieveError::about("invalid output format ", v).message)
    } else if text_eq(a, "--max-depth") && parse_unsigned(v, max).is_none() {
        Some(text_from("invalid maximum depth"))
    } else if text_eq(a, "--limit") && parse_unsigned(v, max).is_none() {
        Some(text_from("invalid result limit"))
    } else if text_eq(a, "--tree-depth") && parse_unsigned(v, max).is_none() {
        Some(text_from("invalid tree depth"))
    } else if text_eq(a, "--minimum-size") && parse_unsigned(v, max).is_none() {
        Some(text_from("invalid minimum size"))
    } else if text_eq(a, "--minimum-support") && parse_unsigned(v, max).is_none() {
        Some(text_from("invalid minimum support"))
    } else if text_eq(a, "--port") && parse_unsigned(v, 65535).is_none() {
        Some(text_from("invalid port"))
    } else if text_eq(a, "--step") && parse_unsigned(v, max).is_none() {
        Some(text_from("invalid proof-step id"))
    } else {
        None
    }
}

proof fn lemma_plain_step(args: Seq<Seq<char>>, i: int)
    requires
        0 <= i < args.len(),
        !is_value(args, i),
        !value_flag(args[i]),
    ensures
        !is_value(args, i + 1),
        forall|f: Seq<char>| #[trigger] last_value(args, i + 1, f) == last_value(args, i, f),
        forall|f: Seq<char>| #[trigger] flag_seen(args, i + 1, f) <==> (flag_seen(args, i, f) || args[i] == f),
        clean_upto(args, i + 1) <==> (clean_upto(args, i) && error_at(args, i) is None),
{
    assert forall|f: Seq<char>| #[trigger] flag_seen(args, i + 1, f) <==> (flag_seen(args, i, f) || args[i] == f) by {
        if flag_seen(args, i + 1, f) {
            let j = choose|j: int| 0 <= j < i + 1 && !is_value(args, j) && #[trigger] args[j] == f;
        }
    }
    if clean_upto(args, i) && error_at(args, i) is None {
        assert forall|j: int| 0 <= j < i + 1 && !is_value(args, j) implies #[trigger] error_at(args, j) is None by {
        }
    }
}

proof fn lemma_first_error_unique(args: Seq<Seq<char>>, i: int)
    requires
        first_error(args, i),
    ensures
        forall|j: int| #[trigger] first_error(args, j) ==> j == i,
        exists|j: int| #[trigger] first_error(args, j) && error_at(args, j) == error_at(args, i),
{
    assert forall|j: int| #[trigger] first_error(args, j) implies j == i by {
        if j < i {
            assert(error_at(args, j) is None);
        } else if j > i {
            assert(error_at(args, i) is None);
        }
    }
    assert(first_error(args, i));
}

/// No option both takes a value and stands alone.
proof fn lemma_value_not_plain(x: Seq<char>)
    requires
        value_flag(x),
    ensures
        !plain_flag(x),
{
    assert("--layer"@ != "--include-generated"@) by {
        reveal_strlit("--layer");
        reveal_strlit("--include-generated");
        assert("--layer"@.len() != "--include-generated"@.len());
    }
    assert("--layer"@ != "--include-infrastructure"@) by {
        reveal_strlit("--layer");
        reveal_strlit("--include-infrastructure");
        assert("--layer"@.len() != "--include-infrastructure"@.len());
    }
    assert("--layer"@ != "--internal-only"@) by {
        reveal_strlit("--layer");
        reveal_strlit("--internal-only");
        assert("--layer"@.len() != "--internal-only"@.len());
    }
    assert("--layer"@ != "--source-backed-only"@) by {
        reveal_strlit("--layer");
        reveal_strlit("--source-backed-only");
        assert("--layer"@.len() != "--source-backed-only"@.len());
    }
    assert("--layer"@ != "--weighted"@) by {
        reveal_strlit("--layer");
        reveal_strlit("--weighted");
        assert("--layer"@.len() != "--weighted"@.len());
    }
    assert("--layer"@ != "--transitive"@) by {
        reveal_strlit("--layer");
        reveal_strlit("--transitive");
        assert("--layer"@.len() != "--transitive"@.len());
    }
    assert("--layer"@ != "--exact"@) by {
        reveal_strlit("--layer");
        reveal_strlit("--exact");
        assert("--layer"@[2] != "--exact"@[2]);
    }
    assert("--layer"@ != "--alpha"@) by {
        reveal_strlit("--layer");
        reveal_strlit("--alpha");
        assert("--layer"@[2] != "--alpha"@[2]);
    }
    assert("--layer"@ != "-h"@) by {
        reveal_strlit("--layer");
        reveal_strlit("-h");
        assert("--layer"@.len() != "-h"@.len());
    }
    assert("--layer"@ != "--help"@) by {
        reveal_strlit("--layer");
        reveal_strlit("--help");
        assert("--layer"@.len() != "--help"@.len());
    }
    assert("--lens"@ != "--include-generated"@) by {
        reveal_strlit("--lens");
        reveal_strlit("--include-generated");
        assert("--lens"@.len() != "--include-generated"@.len());
    }
    assert("--lens"@ != "--include-infrastructure"@) by {
        reveal_strlit("--lens");
        reveal_strlit("--include-infrastructure");
        assert("--lens"@.len() != "--include-infrastructure"@.len());
    }
    assert("--lens"@ != "--internal-only"@) by {
        reveal_strlit("--lens");
        reveal_strlit("--internal-only");
        assert("--lens"@.len() != "--internal-only"@.len());
    }
    assert("--lens"@ != "--source-backed-only"@) by {
        reveal_strlit("--lens");
        reveal_strlit("--source-backed-only");
        assert("--lens"@.len() != "--source-backed-only"@.len());
    }
    assert("--lens"@ != "--weighted"@) by {
        reveal_strlit("--lens");
        reveal_strlit("--weighted");
        assert("--lens"@.len() != "--weighted"@.len());
    }
    assert("--lens"@ != "--transitive"@) by {
        reveal_strlit("--lens");
        reveal_strlit("--transitive");
        assert("--lens"@.len() != "--transitive"@.len());
    }
    assert("--lens"@ != "--exact"@) by {
        reveal_strlit("--lens");
        reveal_strlit("--exact");
        assert("--lens"@.len() != "--exact"@.len());
    }
    assert("--lens"@ != "--alpha"@) by {
        reveal_strlit("--lens");
        reveal_strlit("--alpha");
        assert("--lens"@.len() != "--alpha"@.len());
    }
    assert("--lens"@ != "-h"@) by {
        reveal_strlit("--lens");
        reveal_strlit("-h");
        assert("--lens"@.len() != "-h"@.len());
    }
    assert("--lens"@ != "--help"@) by {
        reveal_strlit("--lens");
        reveal_strlit("--help");
        assert("--lens"@[2] != "--help"@[2]);
    }
    assert("--kind"@ != "--include-generated"@) by {
        reveal_strlit("--kind");
        reveal_strlit("--include-generated");
        assert("--kind"@.len() != "--include-generated"@.len());
    }
    assert("--kind"@ != "--include-infrastructure"@) by {
        reveal_strlit("--kind");
        reveal_strlit("--include-infrastructure");
        assert("--kind"@.len() != "--include-infrastructure"@.len());
    }
    assert("--kind"@ != "--internal-only"@) by {
        reveal_strlit("--kind");
        reveal_strlit("--internal-only");
        assert("--kind"@.len() != "--internal-only"@.len());
    }
    assert("--kind"@ != "--source-backed-only"@) by {
        reveal_strlit("--kind");
        reveal_strlit("--source-backed-only");
        assert("--kind"@.len() != "--source-backed-only"@.len());
    }
    assert("--kind"@ != "--weighted"@) by {
        reveal_strlit("--kind");
        reveal_strlit("--weighted");
        assert("--kind"@.len() != "--weighted"@.len());
    }
    assert("--kind"@ != "--transitive"@) by {
        reveal_strlit("--kind");
        reveal_strlit("--transitive");
        assert("--kind"@.len() != "--transitive"@.len());
    }
    assert("--kind"@ != "--exact"@) by {
        reveal_strlit("--kind");
        reveal_strlit("--exact");
        assert("--kind"@.len() != "--exact"@.len());
    }
    assert("--kind"@ != "--alpha"@) by {
        reveal_strlit("--kind");
        reveal_strlit("--alpha");
        assert("--kind"@.len() != "--alpha"@.len());
    }
    assert("--kind"@ != "-h"@) by {
        reveal_strlit("--kind");
        reveal_strlit("-h");
        assert("--kind"@.len() != "-h"@.len());
    }
    assert("--kind"@ != "--help"@) by {
        reveal_strlit("--kind");
        reveal_strlit("--help");
        assert("--kind"@[2] != "--help"@[2]);
    }
    assert("--module"@ != "--include-generated"@) by {
        reveal_strlit("--module");
        reveal_strlit("--include-generated");
        assert("--module"@.len() != "--include-generated"@.len());
    }
    assert("--module"@ != "--include-infrastructure"@) by {
        reveal_strlit("--module");
        reveal_strlit("--include-infrastructure");
        assert("--module"@.len() != "--include-infrastructure"@.len());
    }
    assert("--module"@ != "--internal-only"@) by {
        reveal_strlit("--module");
        reveal_strlit("--internal-only");
        assert("--module"@.len() != "--internal-only"@.len());
    }
    assert("--module"@ != "--source-backed-only"@) by {
        reveal_strlit("--module");
        reveal_strlit("--source-backed-only");
        assert("--module"@.len() != "--source-backed-only"@.len());
    }
    assert("--module"@ != "--weighted"@) by {
        reveal_strlit("--module");
        reveal_strlit("--weighted");
        assert("--module"@.len() != "--weighted"@.len());
    }
    assert("--module"@ != "--transitive"@) by {
        reveal_strlit("--module");
        reveal_strlit("--transitive");
        assert("--module"@.len() != "--transitive"@.len());
    }
    assert("--module"@ != "--exact"@) by {
        reveal_strlit("--module");
        reveal_strlit("--exact");
        assert("--module"@.len() != "--exact"@.len());
    }
    assert("--module"@ != "--alpha"@) by {
        reveal_strlit("--module");
        reveal_strlit("--alpha");
        assert("--module"@.len() != "--alpha"@.len());
    }
    assert("--module"@ != "-h"@) by {
        reveal_strlit("--module");
        reveal_strlit("-h");
        assert("--module"@.len() != "-h"@.len());
    }
    assert("--module"@ != "--help"@) by {
        reveal_strlit("--module");
        reveal_strlit("--help");
        assert("--module"@.len() != "--help"@.len());
    }
    assert("--max-depth"@ != "--include-generated"@) by {
        reveal_strlit("--max-depth");
        reveal_strlit("--include-generated");
        assert("--max-depth"@.len() != "--include-generated"@.len());
    }
    assert("--max-depth"@ != "--include-infrastructure"@) by {
        reveal_strlit("--max-depth");
        reveal_strlit("--include-infrastructure");
        assert("--max-depth"@.len() != "--include-infrastructure"@.len());
    }
    assert("--max-depth"@ != "--internal-only"@) by {
        reveal_strlit("--max-depth");
        reveal_strlit("--internal-only");
        assert("--max-depth"@.len() != "--internal-only"@.len());
    }
    assert("--max-depth"@ != "--source-backed-only"@) by {
        reveal_strlit("--max-depth");
        reveal_strlit("--source-backed-only");
        assert("--max-depth"@.len() != "--source-backed-only"@.len());
    }
    assert("--max-depth"@ != "--weighted"@) by {
        reveal_strlit("--max-depth");
        reveal_strlit("--weighted");
        assert("--max-depth"@.len() != "--weighted"@.len());
    }
    assert("--max-depth"@ != "--transitive"@) by {
        reveal_strlit("--max-depth");
        reveal_strlit("--transitive");
        assert("--max-depth"@.len() != "--transitive"@.len());
    }
    assert("--max-depth"@ != "--exact"@) by {
        reveal_strlit("--max-depth");
        reveal_strlit("--exact");
        assert("--max-depth"@.len() != "--exact"@.len());
    }
    assert("--max-depth"@ != "--alpha"@) by {
        reveal_strlit("--max-depth");
        reveal_strlit("--alpha");
        assert("--max-depth"@.len() != "--alpha"@.len());
    }
    assert("--max-depth"@ != "-h"@) by {
        reveal_strlit("--max-depth");
        reveal_strlit("-h");
        assert("--max-depth"@.len() != "-h"@.len());
    }
    assert("--max-depth"@ != "--help"@) by {
        reveal_strlit("--max-depth");
        reveal_strlit("--help");
        assert("--max-depth"@.len() != "--help"@.len());
    }
    assert("--limit"@ != "--include-generated"@) by {
        reveal_strlit("--limit");
        reveal_strlit("--include-generated");
        assert("--limit"@.len() != "--include-generated"@.len());
    }
    assert("--limit"@ != "--include-infrastructure"@) by {
        reveal_strlit("--limit");
        reveal_strlit("--include-infrastructure");
        assert("--limit"@.len() != "--include-infrastructure"@.len());
    }
    assert("--limit"@ != "--internal-only"@) by {
        reveal_strlit("--limit");
        reveal_strlit("--internal-only");
        assert("--limit"@.len() != "--internal-only"@.len());
    }
    assert("--limit"@ != "--source-backed-only"@) by {
        reveal_strlit("--limit");
        reveal_strlit("--source-backed-only");
        assert("--limit"@.len() != "--source-backed-only"@.len());
    }
    assert("--limit"@ != "--weighted"@) by {
        reveal_strlit("--limit");
        reveal_strlit("--weighted");
        assert("--limit"@.len() != "--weighted"@.len());
    }
    assert("--limit"@ != "--transitive"@) by {
        reveal_strlit("--limit");
        reveal_strlit("--transitive");
        assert("--limit"@.len() != "--transitive"@.len());
    }
    assert("--limit"@ != "--exact"@) by {
        reveal_strlit("--limit");
        reveal_strlit("--exact");
        assert("--limit"@[2] != "--exact"@[2]);
    }
    assert("--limit"@ != "--alpha"@) by {
        reveal_strlit("--limit");
        reveal_strlit("--alpha");
        assert("--limit"@[2] != "--alpha"@[2]);
    }
    assert("--limit"@ != "-h"@) by {
        reveal_strlit("--limit");
        reveal_strlit("-h");
        assert("--limit"@.len() != "-h"@.len());
    }
    assert("--limit"@ != "--help"@) by {
        reveal_strlit("--limit");
        reveal_strlit("--help");
        assert("--limit"@.len() != "--help"@.len());
    }
    assert("--tree-depth"@ != "--include-generated"@) by {
        reveal_strlit("--tree-depth");
        reveal_strlit("--include-generated");
        assert("--tree-depth"@.len() != "--include-generated"@.len());
    }
    assert("--tree-depth"@ != "--include-infrastructure"@) by {
        reveal_strlit("--tree-depth");
        reveal_strlit("--include-infrastructure");
        assert("--tree-depth"@.len() != "--include-infrastructure"@.len());
    }
    assert("--tree-depth"@ != "--internal-only"@) by {
        reveal_strlit("--tree-depth");
        reveal_strlit("--internal-only");
        assert("--tree-depth"@.len() != "--internal-only"@.len());
    }
    assert("--tree-depth"@ != "--source-backed-only"@) by {
        reveal_strlit("--tree-depth");
        reveal_strlit("--source-backed-only");
        assert("--tree-depth"@.len() != "--source-backed-only"@.len());
    }
    assert("--tree-depth"@ != "--weighted"@) by {
        reveal_strlit("--tree-depth");
        reveal_strlit("--weighted");
        assert("--tree-depth"@.len() != "--weighted"@.len());
    }
    assert("--tree-depth"@ != "--transitive"@) by {
        reveal_strlit("--tree-depth");
        reveal_strlit("--transitive");
        assert("--tree-depth"@[4] != "--transitive"@[4]);
    }
    assert("--tree-depth"@ != "--exact"@) by {
        reveal_strlit("--tree-depth");
        reveal_strlit("--exact");
        assert("--tree-depth"@.len() != "--exact"@.len());
    }
    assert("--tree-depth"@ != "--alpha"@) by {
        reveal_strlit("--tree-depth");
        reveal_strlit("--alpha");
        assert("--tree-depth"@.len() != "--alpha"@.len());
    }
    assert("--tree-depth"@ != "-h"@) by {
        reveal_strlit("--tree-depth");
        reveal_strlit("-h");
        assert("--tree-depth"@.len() != "-h"@.len());
    }
    assert("--tree-depth"@ != "--help"@) by {
        reveal_strlit("--tree-depth");
        reveal_strlit("--help");
        assert("--tree-depth"@.len() != "--help"@.len());
    }
    assert("--minimum-size"@ != "--include-generated"@) by {
        reveal_strlit("--minimum-size");
        reveal_strlit("--include-generated");
        assert("--minimum-size"@.len() != "--include-generated"@.len());
    }
    assert("--minimum-size"@ != "--include-infrastructure"@) by {
        reveal_strlit("--minimum-size");
        reveal_strlit("--include-infrastructure");
        assert("--minimum-size"@.len() != "--include-infrastructure"@.len());
    }
    assert("--minimum-size"@ != "--internal-only"@) by {
        reveal_strlit("--minimum-size");
        reveal_strlit("--internal-only");
        assert("--minimum-size"@.len() != "--internal-only"@.len());
    }
    assert("--minimum-size"@ != "--source-backed-only"@) by {
        reveal_strlit("--minimum-size");
        reveal_strlit("--source-backed-only");
        assert("--minimum-size"@.len() != "--source-backed-only"@.len());
    }
    assert("--minimum-size"@ != "--weighted"@) by {
        reveal_strlit("--minimum-size");
        reveal_strlit("--weighted");
        assert("--minimum-size"@.len() != "--weighted"@.len());
    }
    assert("--minimum-size"@ != "--transitive"@) by {
        reveal_strlit("--minimum-size");
        reveal_strlit("--transitive");
        assert("--minimum-size"@.len() != "--transitive"@.len());
    }
    assert("--minimum-size"@ != "--exact"@) by {
        reveal_strlit("--minimum-size");
        reveal_strlit("--exact");
        assert("--minimum-size"@.len() != "--exact"@.len());
    }
    assert("--minimum-size"@ != "--alpha"@) by {
        reveal_strlit("--minimum-size");
        reveal_strlit("--alpha");
        assert("--minimum-size"@.len() != "--alpha"@.len());
    }
    assert("--minimum-size"@ != "-h"@) by {
        reveal_strlit("--minimum-size");
        reveal_strlit("-h");
        assert("--minimum-size"@.len() != "-h"@.len());
    }
    assert("--minimum-size"@ != "--help"@) by {
        reveal_strlit("--minimum-size");
        reveal_strlit("--help");
        assert("--minimum-size"@.len() != "--help"@.len());
    }
    assert("--minimum-support"@ != "--include-generated"@) by {
        reveal_strlit("--minimum-support");
        reveal_strlit("--include-generated");
        assert("--minimum-support"@.len() != "--include-generated"@.len());
    }
    assert("--minimum-support"@ != "--include-infrastructure"@) by {
        reveal_strlit("--minimum-support");
        reveal_strlit("--include-infrastructure");
        assert("--minimum-support"@.len() != "--include-infrastructure"@.len());
    }
    assert("--minimum-support"@ != "--internal-only"@) by {
        reveal_strlit("--minimum-support");
        reveal_strlit("--internal-only");
        assert("--minimum-support"@.len() != "--internal-only"@.len());
    }
    assert("--minimum-support"@ != "--source-backed-only"@) by {
        reveal_strlit("--minimum-support");
        reveal_strlit("--source-backed-only");
        assert("--minimum-support"@.len() != "--source-backed-only"@.len());
    }
    assert("--minimum-support"@ != "--weighted"@) by {
        reveal_strlit("--minimum-support");
        reveal_strlit("--weighted");
        assert("--minimum-support"@.len() != "--weighted"@.len());
    }
    assert("--minimum-support"@ != "--transitive"@) by {
        reveal_strlit("--minimum-support");
        reveal_strlit("--transitive");
        assert("--minimum-support"@.len() != "--transitive"@.len());
    }
    assert("--minimum-support"@ != "--exact"@) by {
        reveal_strlit("--minimum-support");
        reveal_strlit("--exact");
        assert("--minimum-support"@.len() != "--exact"@.len());
    }
    assert("--minimum-support"@ != "--alpha"@) by {
        reveal_strlit("--minimum-support");
        reveal_strlit("--alpha");
        assert("--minimum-support"@.len() != "--alpha"@.len());
    }
    assert("--minimum-support"@ != "-h"@) by {
        reveal_strlit("--minimum-support");
        reveal_strlit("-h");
        assert("--minimum-support"@.len() != "-h"@.len());
    }
    assert("--minimum-support"@ != "--help"@) by {
        reveal_strlit("--minimum-support");
        reveal_strlit("--help");
        assert("--minimum-support"@.len() != "--help"@.len());
    }
    assert("--histogram-buckets"@ != "--include-generated"@) by {
        reveal_strlit("--histogram-buckets");
        reveal_strlit("--include-generated");
        assert("--histogram-buckets"@[2] != "--include-generated"@[2]);
    }
    assert("--histogram-buckets"@ != "--include-infrastructure"@) by {
        reveal_strlit("--histogram-buckets");
        reveal_strlit("--include-infrastructure");
        assert("--histogram-buckets"@.len() != "--include-infrastructure"@.len());
    }
    assert("--histogram-buckets"@ != "--internal-only"@) by {
        reveal_strlit("--histogram-buckets");
        reveal_strlit("--internal-only");
        assert("--histogram-buckets"@.len() != "--internal-only"@.len());
    }
    assert("--histogram-buckets"@ != "--source-backed-only"@) by {
        reveal_strlit("--histogram-buckets");
        reveal_strlit("--source-backed-only");
        assert("--histogram-buckets"@.len() != "--source-backed-only"@.len());
    }
    assert("--histogram-buckets"@ != "--weighted"@) by {
        reveal_strlit("--histogram-buckets");
        reveal_strlit("--weighted");
        assert("--histogram-buckets"@.len() != "--weighted"@.len());
    }
    assert("--histogram-buckets"@ != "--transitive"@) by {
        reveal_strlit("--histogram-buckets");
        reveal_strlit("--transitive");
        assert("--histogram-buckets"@.len() != "--transitive"@.len());
    }
    assert("--histogram-buckets"@ != "--exact"@) by {
        reveal_strlit("--histogram-buckets");
        reveal_strlit("--exact");
        assert("--histogram-buckets"@.len() != "--exact"@.len());
    }
    assert("--histogram-buckets"@ != "--alpha"@) by {
        reveal_strlit("--histogram-buckets");
        reveal_strlit("--alpha");
        assert("--histogram-buckets"@.len() != "--alpha"@.len());
    }
    assert("--histogram-buckets"@ != "-h"@) by {
        reveal_strlit("--histogram-buckets");
        reveal_strlit("-h");
        assert("--histogram-buckets"@.len() != "-h"@.len());
    }
    assert("--histogram-buckets"@ != "--help"@) by {
        reveal_strlit("--histogram-buckets");
        reveal_strlit("--help");
        assert("--histogram-buckets"@.len() != "--help"@.len());
    }
    assert("--format"@ != "--include-generated"@) by {
        reveal_strlit("--format");
        reveal_strlit("--include-generated");
        assert("--format"@.len() != "--include-generated"@.len());
    }
    assert("--format"@ != "--include-infrastructure"@) by {
        reveal_strlit("--format");
        reveal_strlit("--include-infrastructure");
        assert("--format"@.len() != "--include-infrastructure"@.len());
    }
    assert("--format"@ != "--internal-only"@) by {
        reveal_strlit("--format");
        reveal_strlit("--internal-only");
        assert("--format"@.len() != "--internal-only"@.len());
    }
    assert("--format"@ != "--source-backed-only"@) by {
        reveal_strlit("--format");
        reveal_strlit("--source-backed-only");
        assert("--format"@.len() != "--source-backed-only"@.len());
    }
    assert("--format"@ != "--weighted"@) by {
        reveal_strlit("--format");
        reveal_strlit("--weighted");
        assert("--format"@.len() != "--weighted"@.len());
    }
    assert("--format"@ != "--transitive"@) by {
        reveal_strlit("--format");
        reveal_strlit("--transitive");
        assert("--format"@.len() != "--transitive"@.len());
    }
    assert("--format"@ != "--exact"@) by {
        reveal_strlit("--format");
        reveal_strlit("--exact");
        assert("--format"@.len() != "--exact"@.len());
    }
    assert("--format"@ != "--alpha"@) by {
        reveal_strlit("--format");
        reveal_strlit("--alpha");
        assert("--format"@.len() != "--alpha"@.len());
    }
    assert("--format"@ != "-h"@) by {
        reveal_strlit("--format");
        reveal_strlit("-h");
        assert("--format"@.len() != "-h"@.len());
    }
    assert("--format"@ != "--help"@) by {
        reveal_strlit("--format");
        reveal_strlit("--help");
        assert("--format"@.len() != "--help"@.len());
    }
    assert("--port"@ != "--include-generated"@) by {
        reveal_strlit("--port");
        reveal_strlit("--include-generated");
        assert("--port"@.len() != "--include-generated"@.len());
    }
    assert("--port"@ != "--include-infrastructure"@) by {
        reveal_strlit("--port");
        reveal_strlit("--include-infrastructure");
        assert("--port"@.len() != "--include-infrastructure"@.len());
    }
    assert("--port"@ != "--internal-only"@) by {
        reveal_strlit("--port");
        reveal_strlit("--internal-only");
        assert("--port"@.len() != "--internal-only"@.len());
    }
    assert("--port"@ != "--source-backed-only"@) by {
        reveal_strlit("--port");
        reveal_strlit("--source-backed-only");
        assert("--port"@.len() != "--source-backed-only"@.len());
    }
    assert("--port"@ != "--weighted"@) by {
        reveal_strlit("--port");
        reveal_strlit("--weighted");
        assert("--port"@.len() != "--weighted"@.len());
    }
    assert("--port"@ != "--transitive"@) by {
        reveal_strlit("--port");
        reveal_strlit("--transitive");
        assert("--port"@.len() != "--transitive"@.len());
    }
    assert("--port"@ != "--exact"@) by {
        reveal_strlit("--port");
        reveal_strlit("--exact");
        assert("--port"@.len() != "--exact"@.len());
    }
    assert("--port"@ != "--alpha"@) by {
        reveal_strlit("--port");
        reveal_strlit("--alpha");
        assert("--port"@.len() != "--alpha"@.len());
    }
    assert("--port"@ != "-h"@) by {
        reveal_strlit("--port");
        reveal_strlit("-h");
        assert("--port"@.len() != "-h"@.len());
    }
    assert("--port"@ != "--help"@) by {
        reveal_strlit("--port");
        reveal_strlit("--help");
        assert("--port"@[2] != "--help"@[2]);
    }
    assert("--step"@ != "--include-generated"@) by {
        reveal_strlit("--step");
        reveal_strlit("--include-generated");
        assert("--step"@.len() != "--include-generated"@.len());
    }
    assert("--step"@ != "--include-infrastructure"@) by {
        reveal_strlit("--step");
        reveal_strlit("--include-infrastructure");
        assert("--step"@.len() != "--include-infrastructure"@.len());
    }
    assert("--step"@ != "--internal-only"@) by {
        reveal_strlit("--step");
        reveal_strlit("--internal-only");
        assert("--step"@.len() != "--internal-only"@.len());
    }
    assert("--step"@ != "--source-backed-only"@) by {
        reveal_strlit("--step");
        reveal_strlit("--source-backed-only");
        assert("--step"@.len() != "--source-backed-only"@.len());
    }
    assert("--step"@ != "--weighted"@) by {
        reveal_strlit("--step");
        reveal_strlit("--weighted");
        assert("--step"@.len() != "--weighted"@.len());
    }
    assert("--step"@ != "--transitive"@) by {
        reveal_strlit("--step");
        reveal_strlit("--transitive");
        assert("--step"@.len() != "--transitive"@.len());
    }
    assert("--step"@ != "--exact"@) by {
        reveal_strlit("--step");
        reveal_strlit("--exact");
        assert("--step"@.len() != "--exact"@.len());
    }
    assert("--step"@ != "--alpha"@) by {
        reveal_strlit("--step");
        reveal_strlit("--alpha");
        assert("--step"@.len() != "--alpha"@.len());
    }
    assert("--step"@ != "-h"@) by {
        reveal_strlit("--step");
        reveal_strlit("-h");
        assert("--step"@.len() != "-h"@.len());
    }
    assert("--step"@ != "--help"@) by {
        reveal_strlit("--step");
        reveal_strlit("--help");
        assert("--step"@[2] != "--help"@[2]);
    }
}

proof fn lemma_value_step(args: Seq<Seq<char>>, i: int)
    requires
        0 <= i,
        i + 1 < args.len(),
        !is_value(args, i),
        value_flag(args[i]),
    ensures
        is_value(args, i + 1),
        !is_value(args, i + 2),
        forall|f: Seq<char>| #[trigger] last_value(args, i + 2, f) == if args[i] == f { Some(args[i + 1]) } else { last_value(args, i, f) },
        forall|f: Seq<char>| #[trigger] flag_seen(args, i + 2, f) <==> (flag_seen(args, i, f) || args[i] == f),
        clean_upto(args, i + 2) <==> (clean_upto(args, i) && error_at(args, i) is None),
        mode_upto(args, i + 2) == mode_upto(args, i),
        words_upto(args, i + 2) == words_upto(args, i),
{
    assert(is_value(args, i + 1));
    assert(mode_upto(args, i + 2) == mode_upto(args, i + 1));
    assert(mode_upto(args, i + 1) == mode_upto(args, i));
    assert(words_upto(args, i + 2) == words_upto(args, i + 1));
    assert(words_upto(args, i + 1) == words_upto(args, i));
    assert forall|f: Seq<char>| #[trigger] last_value(args, i + 2, f) == if args[i] == f { Some(args[i + 1]) } else { last_value(args, i, f) } by {
        assert(last_value(args, i + 1, f) == last_value(args, i, f));
    }
    assert forall|f: Seq<char>| #[trigger] flag_seen(args, i + 2, f) <==> (flag_seen(args, i, f) || args[i] == f) by {
        if flag_seen(args, i + 2, f) {
            let j = choose|j: int| 0 <= j < i + 2 && !is_value(args, j) && #[trigger] args[j] == f;
        }
    }
    if clean_upto(args, i) && error_at(args, i) is None {
        assert forall|j: int| 0 <= j < i + 2 && !is_value(args, j) implies #[trigger] error_at(args, j) is None by {
        }
    }
}

/// Reads the arguments after the program name: options anywhere, the
/// words in order making up the command.
pub fn parse_arguments(args: &Vec<String>) -> (r: Result<CliOptions, SieveError>)
    ensures
        forall|i: int| #[trigger] first_error(texts_view(args@), i)
            ==> (r matches Err(e) && e.message@ == error_at(texts_view(args@), i)->0),
        match r {
            Ok(o) => arguments_read(texts_view(args@), o),
            Err(e) => arguments_refused(texts_view(args@), e.message@),
        },
{
    let ghost a = texts_view(args@);
    let n = args.len();
    let mut include_generated = false;
    let mut include_infrastructure = false;
    let mut internal_only = false;
    let mut source_backed_only = false;
    let mut kind: Option<String> = None;
    let mut module: Option<String> = None;
    let mut layer = LayerSelection::Both;
    let mut layer_explicit = false;
    let mut lens = LensKind::All;
    let mut format = OutputFormat::Text;
    let mut weighted = false;
    let mut transitive = false;
    let mut max_depth: usize = 32;
    let mut limit: usize = 100;
    let mut tree_depth: Option<usize> = None;
    let mut minimum_size: usize = 4;
    let mut minimum_support: usize = 2;
    let mut mode = StructuralMode::AlphaEquivalent;
    let mut buckets: Option<String> = None;
    let mut port: u16 = 4173;
    let mut step: Option<usize> = None;
    let mut words: Vec<String> = Vec::new();
    let mut i: usize = 0;
    while i < n
        invariant
            a == texts_view(args@),
            n == a.len(),
            i <= n,
            !is_value(a, i as int),
            clean_upto(a, i as int),
            include_generated == flag_seen(a, i as int, "--include-generated"@),
            include_infrastructure == flag_seen(a, i as int, "--include-infrastructure"@),
            internal_only == flag_seen(a, i as int, "--internal-only"@),
            source_backed_only == flag_seen(a, i as int, "--source-backed-only"@),
            crate::strings::opt_view(&kind) == last_value(a, i as int, "--kind"@),
            crate::strings::opt_view(&module) == last_value(a, i as int, "--module"@),
            layer == match last_value(a, i as int, "--layer"@) { Some(v) => layer_named(v)->0, None => LayerSelection::Both },
            layer_explicit == flag_seen(a, i as int, "--layer"@),
            lens == match last_value(a, i as int, "--lens"@) { Some(v) => lens_named(v)->0, None => LensKind::All },
            format == match last_value(a, i as int, "--format"@) { Some(v) => format_named(v)->0, None => OutputFormat::Text },
            weighted == flag_seen(a, i as int, "--weighted"@),
            transitive == flag_seen(a, i as int, "--transitive"@),
            max_depth == match last_value(a, i as int, "--max-depth"@) { Some(v) => unsigned_text(v, usize::MAX as nat)->0, None => 32 },
            limit == match last_value(a, i as int, "--limit"@) { Some(v) => unsigned_text(v, usize::MAX as nat)->0, None => 100 },
            tree_depth == match last_value(a, i as int, "--tree-depth"@) { Some(v) => Some(unsigned_text(v, usize::MAX as nat)->0 as usize), None => None },
            minimum_size == match last_value(a, i as int, "--minimum-size"@) { Some(v) => unsigned_text(v, usize::MAX as nat)->0, None => 4 },
            minimum_support == match last_value(a, i as int, "--minimum-support"@) { Some(v) => unsigned_text(v, usize::MAX as nat)->0, None => 2 },
            mode == mode_upto(a, i as int),
            crate::strings::opt_view(&buckets) == last_value(a, i as int, "--histogram-buckets"@),
            port == match last_value(a, i as int, "--port"@) { Some(v) => unsigned_text(v, 65535)->0, None => 4173 },
            step == match last_value(a, i as int, "--step"@) { Some(v) => Some(unsigned_text(v, usize::MAX as nat)->0 as usize), None => None },
            texts_view(words@) == words_upto(a, i as int),
        decreases n - i,
    {
        let arg = args[i].as_str();
        proof {
            assert(a[i as int] == arg@);
        }
        if is_value_flag(arg) {
            if i + 1 >= n {
                let m = missing_text(arg);
                proof {
                    assert(error_at(a, i as int) == Some(m@));
                    lemma_first_error_unique(a, i as int);
                }
                return Err(SieveError { message: m });
            }
            let v = args[i + 1].as_str();
            proof {
                assert(a[i + 1] == v@);
            }
            match value_problem(arg, v) {
                Some(m) => {
                    proof {
                        assert(error_at(a, i as int) == Some(m@));
                        lemma_first_error_unique(a, i as int);
                    }
                    return Err(SieveError { message: m });
                },
                None => {},
            }
            proof {
                lemma_value_step(a, i as int);
                lemma_value_not_plain(a[i as int]);
            }
            if text_eq(arg, "--kind") {
                kind = Some(text_from(v));
            }
            if text_eq(arg, "--module") {
                module = Some(text_from(v));
            }
            if text_eq(arg, "--layer") {
                layer = layer_of(v).unwrap();
                layer_explicit = true;
            }
            if text_eq(arg, "--lens") {
                lens = match LensKind::parse(v) {
                    Ok(l) => l,
                    Err(_) => LensKind::All,
                };
            }
            if text_eq(arg, "--format") {
                format = format_of(v).unwrap();
            }
            if text_eq(arg, "--max-depth") {
                max_depth = parse_unsigned(v, usize::MAX as u64).unwrap() as usize;
            }
            if text_eq(arg, "--limit") {
                limit = parse_unsigned(v, usize::MAX as u64).unwrap() as usize;
            }
            if text_eq(arg, "--tree-depth") {
                tree_depth = Some(parse_unsigned(v, usize::MAX as u64).unwrap() as usize);
            }
            if text_eq(arg, "--minimum-size") {
                minimum_size = parse_unsigned(v, usize::MAX as u64).unwrap() as usize;
            }
            if text_eq(arg, "--minimum-support") {
                minimum_support = parse_unsigned(v, usize::MAX as u64).unwrap() as usize;
            }
            if text_eq(arg, "--histogram-buckets") {
                buckets = Some(text_from(v));
            }
            if text_eq(arg, "--port") {
                port = parse_unsigned(v, 65535).unwrap() as u16;
            }
            if text_eq(arg, "--step") {
                step = Some(parse_unsigned(v, usize::MAX as u64).unwrap() as usize);
            }
            i = i + 2;
        } else {
            let plain = is_plain_flag(arg);
            if !plain && dash_first(arg) {
                let e = SieveError::about("unknown option ", arg);
                proof {
                    assert(error_at(a, i as int) == Some(e.message@));
                    lemma_first_error_unique(a, i as int);
                }
                return Err(e);
            }
            proof {
                lemma_plain_step(a, i as int);
            }
            if text_eq(arg, "--include-generated") {
                include_generated = true;
            }
            if text_eq(arg, "--include-infrastructure") {
                include_infrastructure = true;
            }
            if text_eq(arg, "--internal-only") {
                internal_only = true;
            }
            if text_eq(arg, "--source-backed-only") {
                source_backed_only = true;
            }
            if text_eq(arg, "--weighted") {
                weighted = true;
            }
            if text_eq(arg, "--transitive") {
                transitive = true;
            }
            if text_eq(arg, "--exact") {
                mode = StructuralMode::Exact;
            } else if text_eq(arg, "--alpha") {
                mode = StructuralMode::AlphaEquivalent;
            }
            let ghost w0 = words@;
            if text_eq(arg, "-h") || text_eq(arg, "--help") {
                words.push(text_from("help"));
            } else if !plain {
                words.push(text_from(arg));
            }
            proof {
                assert(texts_view(words@) =~= words_upto(a, i + 1));
            }
            i = i + 1;
        }
    }
    let ghost w = words@;
    let command = match parse_command(words) {
        Ok(c) => c,
        Err(e) => {
            proof {
                assert(command_parsed(words_upto(a, a.len() as int), Err(e)));
            }
            return Err(e);
        },
    };
    proof {
        assert(command_parsed(words_upto(a, a.len() as int), Ok(command)));
        assert(lens == lens_given(a));
        assert(format == format_given(a));
    }
    let discover = match &command {
        Command::Discover => true,
        _ => false,
    };
    let inspect = match &command {
        Command::Inspect(_) => true,
        _ => false,
    };
    if discover && (lens == LensKind::Proof || lens == LensKind::Trust) {
        let e = SieveError::new("discover supports influence, bridge, neighbors, or all");
        proof {
            assert(conflict_message(command, a) == Some(e.message@));
        }
        return Err(e);
    }
    if (discover || inspect) && format == OutputFormat::Csv {
        let e = SieveError::new("discover and inspect support --format text or json");
        proof {
            assert(conflict_message(command, a) == Some(e.message@));
        }
        return Err(e);
    }
    Ok(CliOptions {
        command,
        filter: AnalysisFilter {
            include_generated,
            include_infrastructure,
            internal_only,
            source_backed_only,
            declaration_kind: kind,
            module,
            layer,
        },
        format,
        weighted,
        transitive,
        max_depth,
        limit,
        tree_depth,
        minimum_size,
        minimum_support,
        structural_mode: mode,
        histogram_buckets: buckets,
        port,
        selected_step: step,
        lens,
        layer_explicit,
    })
}

impl CliOptions {
    /// The declarations whose proof data the command needs extracted.
    pub fn extraction_targets(&self) -> (r: Vec<String>)
        ensures
            texts_view(r@) == match self.command {
                Command::LegacyDeclarations(targets) => texts_view(targets@),
                Command::ProofSteps(target) => seq![target@],
                _ => Seq::empty(),
            },
    {
        match &self.command {
            Command::LegacyDeclarations(targets) => copy_texts(targets),
            Command::ProofSteps(target) => {
                let mut r: Vec<String> = Vec::new();
                r.push(copy_text(target));
                proof {
                    assert(texts_view(r@) =~= seq![target@]);
                }
                r
            },
            _ => {
                let r: Vec<String> = Vec::new();
                proof {
                    assert(texts_view(r@) =~= Seq::empty());
                }
                r
            },
        }
    }

    /// The lenses the command runs.
    pub fn selected_lenses(&self) -> (r: Vec<LensKind>)
        ensures
            r@ == expanded(self.lens, self.command is Discover),
    {
        let discovery = match &self.command {
            Command::Discover => true,
            _ => false,
        };
        self.lens.expand_for_discovery(discovery)
    }

    /// An inspection that needs the proof steps of its target.
    pub fn needs_targeted_proof_steps(&self) -> (r: bool)
        ensures
            r == (self.command is Inspect && (expanded(self.lens, false).contains(LensKind::Proof)
                || expanded(self.lens, false).contains(LensKind::Trust))),
    {
        let inspect = match &self.command {
            Command::Inspect(_) => true,
            _ => false,
        };
        if !inspect {
            return false;
        }
        let lenses = self.selected_lenses();
        let mut i: usize = 0;
        while i < lenses.len()
            invariant
                lenses@ == expanded(self.lens, false),
                self.command is Inspect,
                i <= lenses.len(),
                forall|j: int| 0 <= j < i ==> lenses@[j] != LensKind::Proof && lenses@[j] != LensKind::Trust,
            decreases lenses.len() - i,
        {
            if lenses[i] == LensKind::Proof || lenses[i] == LensKind::Trust {
                assert(lenses@.contains(lenses@[i as int]));
                return true;
            }
            i = i + 1;
        }
        false
    }
}

} // verus!
