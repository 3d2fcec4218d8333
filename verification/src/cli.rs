//! The command line: what a list of arguments asks for, and what is said where they make no
//! sense.
use crate::path;
use crate::path::{FieldPath, PathModel};
use crate::text;
use crate::text::{chars_of, parse_u64, parse_usize, same_text};
use vstd::prelude::*;

verus! {

/// How the program is called.
pub const USAGE: &'static str = "\
jsonl-peek head   [-n N] [FILE]
jsonl-peek sample [-n N] [--seed S] [FILE]
jsonl-peek stats  [--field PATH]... [--top N] [--max-errors N] [--json] [FILE]
jsonl-peek schema [--depth N] [--min-rate R] [--json] [FILE]

Reads standard input when FILE is omitted or is '-'.
";

/// What the arguments ask for.
#[derive(Debug)]
pub enum Request {
    /// Say how the program is called.
    Help,
    /// Say what is wrong with the arguments.
    Usage(String),
    /// Print the first `n` lines.
    Head { n: usize, file: Option<String> },
    /// Print a sample of `n` lines.
    Sample { n: usize, seed: Option<u64>, file: Option<String> },
    /// Print a health report.
    Stats {
        fields: Vec<FieldPath>,
        top: usize,
        max_errors: usize,
        json: bool,
        file: Option<String>,
    },
    /// Print a schema; the rate is given by the bits of its double.
    Schema { depth: usize, min_rate: u64, json: bool, file: Option<String> },
}

/// What the arguments ask for.
#[verifier::ext_equal]
pub enum Order {
    Help,
    Usage(Seq<char>),
    Head { n: nat, file: Option<Seq<char>> },
    Sample { n: nat, seed: Option<nat>, file: Option<Seq<char>> },
    Stats {
        fields: Seq<PathModel>,
        top: nat,
        max_errors: nat,
        json: bool,
        file: Option<Seq<char>>,
    },
    Schema { depth: nat, min_rate: u64, json: bool, file: Option<Seq<char>> },
}

/// The text that is there, if there is one.
pub open spec fn file_model(file: Option<String>) -> Option<Seq<char>> {
    match file {
        Some(name) => Some(name@),
        None => None,
    }
}

/// The seed that is there, if there is one.
pub open spec fn seed_model(seed: Option<u64>) -> Option<nat> {
    match seed {
        Some(n) => Some(n as nat),
        None => None,
    }
}

/// The paths of a list of fields.
pub open spec fn paths_model(fields: Seq<FieldPath>) -> Seq<PathModel> {
    Seq::new(fields.len(), |i: int| fields[i]@)
}

/// The texts of a list of arguments.
pub open spec fn args_model(args: Seq<String>) -> Seq<Seq<char>> {
    Seq::new(args.len(), |i: int| args[i]@)
}

impl View for Request {
    type V = Order;

    open spec fn view(&self) -> Order {
        match *self {
            Request::Help => Order::Help,
            Request::Usage(words) => Order::Usage(words@),
            Request::Head { n, file } => Order::Head { n: n as nat, file: file_model(file) },
            Request::Sample { n, seed, file } => Order::Sample {
                n: n as nat,
                seed: seed_model(seed),
                file: file_model(file),
            },
            Request::Stats { fields, top, max_errors, json, file } => Order::Stats {
                fields: paths_model(fields@),
                top: top as nat,
                max_errors: max_errors as nat,
                json,
                file: file_model(file),
            },
            Request::Schema { depth, min_rate, json, file } => Order::Schema {
                depth: depth as nat,
                min_rate,
                json,
                file: file_model(file),
            },
        }
    }
}

// ---------------------------------------------------------------------------------------------
// Single arguments
// ---------------------------------------------------------------------------------------------

/// Whether an argument looks like an option. A single dash does not.
pub open spec fn is_option(arg: Seq<char>) -> bool {
    arg.len() > 1 && arg[0] == '-'
}

/// Whether an argument asks for help.
pub open spec fn is_help(arg: Seq<char>) -> bool {
    arg == "-h"@ || arg == "--help"@
}

/// What an argument is that is none of a command's own options: a call for help, a mistake, or
/// a file name, of which there is one at most.
pub open spec fn plain_order(command: Seq<char>, arg: Seq<char>, has_file: bool) -> Option<Order> {
    if is_help(arg) {
        Some(Order::Help)
    } else if is_option(arg) {
        Some(Order::Usage(command + ": unknown option '"@ + arg + "'"@))
    } else if has_file {
        Some(Order::Usage(command + ": too many arguments"@))
    } else {
        None
    }
}

/// The number behind the option at position `i`, where it is one of at most `max`.
pub open spec fn number_behind(args: Seq<Seq<char>>, i: int, max: nat) -> Result<nat, Order> {
    if i + 1 >= args.len() {
        Err(Order::Usage(args[i] + " requires a value"@))
    } else {
        match text::unsigned_value(args[i + 1]) {
            Some(n) => if n <= max {
                Ok(n)
            } else {
                Err(Order::Usage(args[i] + " expects a number, got '"@ + args[i + 1] + "'"@))
            },
            None => Err(Order::Usage(args[i] + " expects a number, got '"@ + args[i + 1] + "'"@)),
        }
    }
}

/// The field path behind the option at position `i`.
pub open spec fn path_behind(args: Seq<Seq<char>>, i: int) -> Result<PathModel, Order> {
    if i + 1 >= args.len() {
        Err(Order::Usage(args[i] + " requires a value"@))
    } else {
        match path::compile(args[i + 1]) {
            Ok(steps) => Ok(PathModel { source: args[i + 1], steps }),
            Err(fault) => Err(
                Order::Usage(
                    "invalid field path '"@ + args[i + 1] + "': "@ + path::fault_text(fault),
                ),
            ),
        }
    }
}

/// The rate behind the option at position `i`. `rates` holds, for each argument that is the
/// numeral of a double, the bits of that double.
pub open spec fn rate_behind(
    args: Seq<Seq<char>>,
    rates: Seq<Option<u64>>,
    i: int,
) -> Result<u64, Order> {
    if i + 1 >= args.len() {
        Err(Order::Usage(args[i] + " requires a value"@))
    } else {
        match rates[i + 1] {
            Some(bits) => Ok(bits),
            None => Err(
                Order::Usage(args[i] + " expects a number, got '"@ + args[i + 1] + "'"@),
            ),
        }
    }
}

fn missing_value(option: &str) -> (r: Request)
    ensures
        r@ == Order::Usage(option@ + " requires a value"@),
{
    let mut words: String = option.to_owned();
    words.append(" requires a value");
    Request::Usage(words)
}

fn not_a_number(option: &str, value: &str) -> (r: Request)
    ensures
        r@ == Order::Usage(option@ + " expects a number, got '"@ + value@ + "'"@),
{
    let mut words: String = option.to_owned();
    words.append(" expects a number, got '");
    words.append(value);
    words.append("'");
    Request::Usage(words)
}

fn read_plain(command: &str, arg: &str, has_file: bool) -> (r: Option<Request>)
    ensures
        r matches Some(request) ==> plain_order(command@, arg@, has_file) == Some(request@),
        r is None ==> plain_order(command@, arg@, has_file) is None,
{
    if same_text(arg, "-h") || same_text(arg, "--help") {
        return Some(Request::Help);
    }
    let chars: Vec<char> = chars_of(arg);
    let mut words: String = command.to_owned();
    if chars.len() > 1 && chars[0] == '-' {
        words.append(": unknown option '");
        words.append(arg);
        words.append("'");
        Some(Request::Usage(words))
    } else if has_file {
        words.append(": too many arguments");
        Some(Request::Usage(words))
    } else {
        None
    }
}

fn read_size(args: &Vec<String>, i: usize) -> (r: Result<usize, Request>)
    requires
        i < args@.len(),
    ensures
        r matches Ok(n) ==> number_behind(args_model(args@), i as int, usize::MAX as nat) == Ok::<
            nat,
            Order,
        >(n as nat),
        r matches Err(e) ==> number_behind(args_model(args@), i as int, usize::MAX as nat) == Err::<
            nat,
            Order,
        >(e@),
{
    let len: usize = args.len();
    if i + 1 >= len {
        return Err(missing_value(args[i].as_str()));
    }
    match parse_usize(args[i + 1].as_str()) {
        Some(n) => Ok(n),
        None => Err(not_a_number(args[i].as_str(), args[i + 1].as_str())),
    }
}

fn read_seed(args: &Vec<String>, i: usize) -> (r: Result<u64, Request>)
    requires
        i < args@.len(),
    ensures
        r matches Ok(n) ==> number_behind(args_model(args@), i as int, u64::MAX as nat) == Ok::<
            nat,
            Order,
        >(n as nat),
        r matches Err(e) ==> number_behind(args_model(args@), i as int, u64::MAX as nat) == Err::<
            nat,
            Order,
        >(e@),
{
    let len: usize = args.len();
    if i + 1 >= len {
        return Err(missing_value(args[i].as_str()));
    }
    match parse_u64(args[i + 1].as_str()) {
        Some(n) => Ok(n),
        None => Err(not_a_number(args[i].as_str(), args[i + 1].as_str())),
    }
}

fn read_path(args: &Vec<String>, i: usize) -> (r: Result<FieldPath, Request>)
    requires
        i < args@.len(),
    ensures
        r matches Ok(p) ==> path_behind(args_model(args@), i as int) == Ok::<PathModel, Order>(p@),
        r matches Err(e) ==> path_behind(args_model(args@), i as int) == Err::<PathModel, Order>(
            e@,
        ),
{
    let len: usize = args.len();
    if i + 1 >= len {
        return Err(missing_value(args[i].as_str()));
    }
    let value: &str = args[i + 1].as_str();
    match FieldPath::parse(value) {
        Ok(p) => {
            assert(p@ == (PathModel { source: value@, steps: p@.steps }));
            Ok(p)
        },
        Err(e) => {
            let mut words: String = "invalid field path '".to_owned();
            words.append(value);
            words.append("': ");
            words.append(e.to_string().as_str());
            Err(Request::Usage(words))
        },
    }
}

fn read_rate(args: &Vec<String>, rates: &Vec<Option<u64>>, i: usize) -> (r: Result<u64, Request>)
    requires
        i < args@.len(),
        rates@.len() == args@.len(),
    ensures
        r matches Ok(bits) ==> rate_behind(args_model(args@), rates@, i as int) == Ok::<
            u64,
            Order,
        >(bits),
        r matches Err(e) ==> rate_behind(args_model(args@), rates@, i as int) == Err::<u64, Order>(
            e@,
        ),
{
    let len: usize = args.len();
    if i + 1 >= len {
        return Err(missing_value(args[i].as_str()));
    }
    match rates[i + 1] {
        Some(bits) => Ok(bits),
        None => Err(not_a_number(args[i].as_str(), args[i + 1].as_str())),
    }
}

// ---------------------------------------------------------------------------------------------
// Commands
// ---------------------------------------------------------------------------------------------

/// What the arguments of `head` from position `i` on ask for, where those before gave `n` and
/// `file`.
pub open spec fn head_order(
    args: Seq<Seq<char>>,
    i: int,
    n: nat,
    file: Option<Seq<char>>,
) -> Order
    decreases args.len() - i,
{
    if i < 0 || i >= args.len() {
        Order::Head { n, file }
    } else if args[i] == "-n"@ {
        match number_behind(args, i, usize::MAX as nat) {
            Ok(v) => head_order(args, i + 2, v, file),
            Err(e) => e,
        }
    } else {
        match plain_order("head"@, args[i], file is Some) {
            Some(order) => order,
            None => head_order(args, i + 1, n, Some(args[i])),
        }
    }
}

fn read_head(args: &Vec<String>) -> (r: Request)
    requires
        args@.len() > 0,
    ensures
        r@ == head_order(args_model(args@), 1, 10, None),
{
    let ghost all = args_model(args@);
    let mut n: usize = 10;
    let mut file: Option<String> = None;
    let len: usize = args.len();
    let mut i: usize = 1;
    while i < len
        invariant
            1 <= i,
            len == args@.len(),
            all == args_model(args@),
            head_order(all, 1, 10, None) == head_order(all, i as int, n as nat, file_model(file)),
        decreases len - i,
    {
        let arg: &str = args[i].as_str();
        assert(all[i as int] == arg@);
        if same_text(arg, "-n") {
            match read_size(args, i) {
                Ok(v) => {
                    n = v;
                },
                Err(e) => {
                    return e;
                },
            }
            i = i + 1;
        } else {
            match read_plain("head", arg, file.is_some()) {
                Some(request) => {
                    return request;
                },
                None => {
                    file = Some(arg.to_owned());
                },
            }
        }
        i = i + 1;
    }
    Request::Head { n, file }
}

/// What the arguments of `sample` from position `i` on ask for, where those before gave the
/// rest.
pub open spec fn sample_order(
    args: Seq<Seq<char>>,
    i: int,
    n: nat,
    seed: Option<nat>,
    file: Option<Seq<char>>,
) -> Order
    decreases args.len() - i,
{
    if i < 0 || i >= args.len() {
        Order::Sample { n, seed, file }
    } else if args[i] == "-n"@ {
        match number_behind(args, i, usize::MAX as nat) {
            Ok(v) => sample_order(args, i + 2, v, seed, file),
            Err(e) => e,
        }
    } else if args[i] == "--seed"@ {
        match number_behind(args, i, u64::MAX as nat) {
            Ok(v) => sample_order(args, i + 2, n, Some(v), file),
            Err(e) => e,
        }
    } else {
        match plain_order("sample"@, args[i], file is Some) {
            Some(order) => order,
            None => sample_order(args, i + 1, n, seed, Some(args[i])),
        }
    }
}

fn read_sample(args: &Vec<String>) -> (r: Request)
    requires
        args@.len() > 0,
    ensures
        r@ == sample_order(args_model(args@), 1, 10, None, None),
{
    let ghost all = args_model(args@);
    let mut n: usize = 10;
    let mut seed: Option<u64> = None;
    let mut file: Option<String> = None;
    let len: usize = args.len();
    let mut i: usize = 1;
    while i < len
        invariant
            1 <= i,
            len == args@.len(),
            all == args_model(args@),
            sample_order(all, 1, 10, None, None) == sample_order(
                all,
                i as int,
                n as nat,
                seed_model(seed),
                file_model(file),
            ),
        decreases len - i,
    {
        let arg: &str = args[i].as_str();
        assert(all[i as int] == arg@);
        if same_text(arg, "-n") {
            match read_size(args, i) {
                Ok(v) => {
                    n = v;
                },
                Err(e) => {
                    return e;
                },
            }
            i = i + 1;
        } else if same_text(arg, "--seed") {
            match read_seed(args, i) {
                Ok(v) => {
                    seed = Some(v);
                },
                Err(e) => {
                    return e;
                },
            }
            i = i + 1;
        } else {
            match read_plain("sample", arg, file.is_some()) {
                Some(request) => {
                    return request;
                },
                None => {
                    file = Some(arg.to_owned());
                },
            }
        }
        i = i + 1;
    }
    Request::Sample { n, seed, file }
}

/// What the arguments of `stats` from position `i` on ask for, where those before gave the rest.
pub open spec fn stats_order(
    args: Seq<Seq<char>>,
    i: int,
    fields: Seq<PathModel>,
    top: nat,
    max_errors: nat,
    json: bool,
    file: Option<Seq<char>>,
) -> Order
    decreases args.len() - i,
{
    if i < 0 || i >= args.len() {
        Order::Stats { fields, top, max_errors, json, file }
    } else if args[i] == "--field"@ {
        match path_behind(args, i) {
            Ok(v) => stats_order(args, i + 2, fields.push(v), top, max_errors, json, file),
            Err(e) => e,
        }
    } else if args[i] == "--top"@ {
        match number_behind(args, i, usize::MAX as nat) {
            Ok(v) => stats_order(args, i + 2, fields, v, max_errors, json, file),
            Err(e) => e,
        }
    } else if args[i] == "--max-errors"@ {
        match number_behind(args, i, usize::MAX as nat) {
            Ok(v) => stats_order(args, i + 2, fields, top, v, json, file),
            Err(e) => e,
        }
    } else if args[i] == "--json"@ {
        stats_order(args, i + 1, fields, top, max_errors, true, file)
    } else {
        match plain_order("stats"@, args[i], file is Some) {
            Some(order) => order,
            None => stats_order(args, i + 1, fields, top, max_errors, json, Some(args[i])),
        }
    }
}

fn read_stats(args: &Vec<String>) -> (r: Request)
    requires
        args@.len() > 0,
    ensures
        r@ == stats_order(args_model(args@), 1, Seq::empty(), 10, 10, false, None),
{
    let ghost all = args_model(args@);
    let mut fields: Vec<FieldPath> = Vec::new();
    let mut top: usize = 10;
    let mut max_errors: usize = 10;
    let mut json: bool = false;
    let mut file: Option<String> = None;
    let len: usize = args.len();
    let mut i: usize = 1;
    assert(paths_model(fields@) =~= Seq::empty());
    while i < len
        invariant
            1 <= i,
            len == args@.len(),
            all == args_model(args@),
            stats_order(all, 1, Seq::empty(), 10, 10, false, None) == stats_order(
                all,
                i as int,
                paths_model(fields@),
                top as nat,
                max_errors as nat,
                json,
                file_model(file),
            ),
        decreases len - i,
    {
        let arg: &str = args[i].as_str();
        assert(all[i as int] == arg@);
        if same_text(arg, "--field") {
            match read_path(args, i) {
                Ok(v) => {
                    let ghost held = fields@;
                    fields.push(v);
                    assert(paths_model(fields@) =~= paths_model(held).push(v@));
                },
                Err(e) => {
                    return e;
                },
            }
            i = i + 1;
        } else if same_text(arg, "--top") {
            match read_size(args, i) {
                Ok(v) => {
                    top = v;
                },
                Err(e) => {
                    return e;
                },
            }
            i = i + 1;
        } else if same_text(arg, "--max-errors") {
            match read_size(args, i) {
                Ok(v) => {
                    max_errors = v;
                },
                Err(e) => {
                    return e;
                },
            }
            i = i + 1;
        } else if same_text(arg, "--json") {
            json = true;
        } else {
            match read_plain("stats", arg, file.is_some()) {
                Some(request) => {
                    return request;
                },
                None => {
                    file = Some(arg.to_owned());
                },
            }
        }
        i = i + 1;
    }
    Request::Stats { fields, top, max_errors, json, file }
}

/// What the arguments of `schema` from position `i` on ask for, where those before gave the
/// rest.
pub open spec fn schema_order(
    args: Seq<Seq<char>>,
    rates: Seq<Option<u64>>,
    i: int,
    depth: nat,
    min_rate: u64,
    json: bool,
    file: Option<Seq<char>>,
) -> Order
    decreases args.len() - i,
{
    if i < 0 || i >= args.len() {
        Order::Schema { depth, min_rate, json, file }
    } else if args[i] == "--depth"@ {
        match number_behind(args, i, usize::MAX as nat) {
            Ok(v) => schema_order(args, rates, i + 2, v, min_rate, json, file),
            Err(e) => e,
        }
    } else if args[i] == "--min-rate"@ {
        match rate_behind(args, rates, i) {
            Ok(v) => schema_order(args, rates, i + 2, depth, v, json, file),
            Err(e) => e,
        }
    } else if args[i] == "--json"@ {
        schema_order(args, rates, i + 1, depth, min_rate, true, file)
    } else {
        match plain_order("schema"@, args[i], file is Some) {
            Some(order) => order,
            None => schema_order(args, rates, i + 1, depth, min_rate, json, Some(args[i])),
        }
    }
}

fn read_schema(args: &Vec<String>, rates: &Vec<Option<u64>>) -> (r: Request)
    requires
        args@.len() > 0,
        rates@.len() == args@.len(),
    ensures
        r@ == schema_order(args_model(args@), rates@, 1, 3, 0, false, None),
{
    let ghost all = args_model(args@);
    let mut depth: usize = 3;
    let mut min_rate: u64 = 0;
    let mut json: bool = false;
    let mut file: Option<String> = None;
    let len: usize = args.len();
    let mut i: usize = 1;
    while i < len
        invariant
            1 <= i,
            len == args@.len(),
            rates@.len() == args@.len(),
            all == args_model(args@),
            schema_order(all, rates@, 1, 3, 0, false, None) == schema_order(
                all,
                rates@,
                i as int,
                depth as nat,
                min_rate,
                json,
                file_model(file),
            ),
        decreases len - i,
    {
        let arg: &str = args[i].as_str();
        assert(all[i as int] == arg@);
        if same_text(arg, "--depth") {
            match read_size(args, i) {
                Ok(v) => {
                    depth = v;
                },
                Err(e) => {
                    return e;
                },
            }
            i = i + 1;
        } else if same_text(arg, "--min-rate") {
            match read_rate(args, rates, i) {
                Ok(v) => {
                    min_rate = v;
                },
                Err(e) => {
                    return e;
                },
            }
            i = i + 1;
        } else if same_text(arg, "--json") {
            json = true;
        } else {
            match read_plain("schema", arg, file.is_some()) {
                Some(request) => {
                    return request;
                },
                None => {
                    file = Some(arg.to_owned());
                },
            }
        }
        i = i + 1;
    }
    Request::Schema { depth, min_rate, json, file }
}

/// What the arguments ask for.
pub open spec fn order(args: Seq<Seq<char>>, rates: Seq<Option<u64>>) -> Order {
    if args.len() == 0 {
        Order::Usage("no command given"@)
    } else if args[0] == "head"@ {
        head_order(args, 1, 10, None)
    } else if args[0] == "sample"@ {
        sample_order(args, 1, 10, None, None)
    } else if args[0] == "stats"@ {
        stats_order(args, 1, Seq::empty(), 10, 10, false, None)
    } else if args[0] == "schema"@ {
        schema_order(args, rates, 1, 3, 0, false, None)
    } else if is_help(args[0]) {
        Order::Help
    } else {
        Order::Usage("unknown command '"@ + args[0] + "'"@)
    }
}

/// Reads the arguments. `rates` holds, for each argument that is the numeral of a double, the
/// bits of that double.
pub fn read_arguments(args: &Vec<String>, rates: &Vec<Option<u64>>) -> (r: Request)
    requires
        rates@.len() == args@.len(),
    ensures
        r@ == order(args_model(args@), rates@),
{
    if args.len() == 0 {
        return Request::Usage("no command given".to_owned());
    }
    let command: &str = args[0].as_str();
    if same_text(command, "head") {
        read_head(args)
    } else if same_text(command, "sample") {
        read_sample(args)
    } else if same_text(command, "stats") {
        read_stats(args)
    } else if same_text(command, "schema") {
        read_schema(args, rates)
    } else if same_text(command, "-h") || same_text(command, "--help") {
        Request::Help
    } else {
        let mut words: String = "unknown command '".to_owned();
        words.append(command);
        words.append("'");
        Request::Usage(words)
    }
}

// ---------------------------------------------------------------------------------------------
// Input and messages
// ---------------------------------------------------------------------------------------------

/// The name under which the input is reported.
pub open spec fn source_of(file: Option<Seq<char>>) -> Seq<char> {
    match file {
        Some(path) => path,
        None => "-"@,
    }
}

/// Whether the input is standard input.
pub open spec fn is_standard(file: Option<Seq<char>>) -> bool {
    file is None || file == Some("-"@)
}

/// What is said of arguments that make no sense.
pub open spec fn usage_text(words: Seq<char>) -> Seq<char> {
    "jsonl-peek: "@ + words + "\n\n"@ + USAGE@
}

/// What is said of something that went wrong outside.
pub open spec fn failure_text(context: Seq<char>, reason: Seq<char>) -> Seq<char> {
    "jsonl-peek: "@ + context + ": "@ + reason + "\n"@
}

/// The input is standard input exactly where it is reported as a dash, and otherwise it is
/// reported by the name of its file.
pub proof fn law_standard_input_is_a_dash(file: Option<Seq<char>>)
    ensures
        is_standard(file) <==> source_of(file) == seq!['-'],
        file matches Some(path) ==> source_of(file) == path,
{
    reveal_strlit("-");
    assert("-"@ =~= seq!['-']);
}

/// A message starts with the name of the program, a colon and a space, and goes on with what is
/// to be said; where arguments make no sense, it ends with an empty line and how the program is
/// called, and elsewhere with a newline.
pub proof fn law_messages_say_what_is_wrong(words: Seq<char>, reason: Seq<char>)
    ensures
        usage_text(words).take(12) == seq![
            'j', 's', 'o', 'n', 'l', '-', 'p', 'e', 'e', 'k', ':', ' ',
        ],
        usage_text(words).skip(12) == words + seq!['\n', '\n'] + USAGE@,
        failure_text(words, reason).take(12) == usage_text(words).take(12),
        failure_text(words, reason).skip(12) == words + seq![':', ' '] + reason + seq!['\n'],
{
    reveal_strlit("jsonl-peek: ");
    reveal_strlit("\n\n");
    reveal_strlit(": ");
    reveal_strlit("\n");
    let start = seq!['j', 's', 'o', 'n', 'l', '-', 'p', 'e', 'e', 'k', ':', ' '];
    assert("jsonl-peek: "@ =~= start);
    assert("\n\n"@ =~= seq!['\n', '\n']);
    assert(": "@ =~= seq![':', ' ']);
    assert("\n"@ =~= seq!['\n']);
    assert(usage_text(words).take(12) =~= start);
    assert(failure_text(words, reason).take(12) =~= start);
    assert(usage_text(words).skip(12) =~= words + seq!['\n', '\n'] + USAGE@);
    assert(failure_text(words, reason).skip(12) =~= words + seq![':', ' '] + reason + seq![
        '\n',
    ]);
}

/// The name under which the input is reported.
pub fn source_name(file: &Option<String>) -> (name: &str)
    ensures
        name@ == source_of(file_model(*file)),
{
    match file {
        Some(path) => path.as_str(),
        None => "-",
    }
}

/// Whether the input is standard input.
pub fn is_standard_input(file: &Option<String>) -> (yes: bool)
    ensures
        yes == is_standard(file_model(*file)),
{
    same_text(source_name(file), "-")
}

/// What is said of arguments that make no sense.
pub fn usage_message(words: &str) -> (message: String)
    ensures
        message@ == usage_text(words@),
{
    let mut message: String = "jsonl-peek: ".to_owned();
    message.append(words);
    message.append("\n\n");
    message.append(USAGE);
    message
}

/// What is said of something that went wrong outside.
pub fn failure_message(context: &str, reason: &str) -> (message: String)
    ensures
        message@ == failure_text(context@, reason@),
{
    let mut message: String = "jsonl-peek: ".to_owned();
    message.append(context);
    message.append(": ");
    message.append(reason);
    message.append("\n");
    message
}

} // verus!
