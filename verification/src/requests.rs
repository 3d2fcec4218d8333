//! Laws of the command line: how one more argument changes what a list of arguments asks for.
use crate::cli;
use crate::cli::Order;
use crate::path;
use crate::path::PathModel;
use crate::text;
use vstd::prelude::*;

verus! {

/// Whether the arguments ask for one of the commands, and there is nothing wrong with them.
pub open spec fn is_sound(o: Order) -> bool {
    o is Head || o is Sample || o is Stats || o is Schema
}

/// The file that a command is to read.
pub open spec fn file_in(o: Order) -> Option<Seq<char>> {
    match o {
        Order::Head { file, .. } => file,
        Order::Sample { file, .. } => file,
        Order::Stats { file, .. } => file,
        Order::Schema { file, .. } => file,
        _ => None,
    }
}

/// The same, with another file to read.
pub open spec fn with_file(o: Order, name: Seq<char>) -> Order {
    match o {
        Order::Head { n, file } => Order::Head { n, file: Some(name) },
        Order::Sample { n, seed, file } => Order::Sample { n, seed, file: Some(name) },
        Order::Stats { fields, top, max_errors, json, file } => Order::Stats {
            fields,
            top,
            max_errors,
            json,
            file: Some(name),
        },
        Order::Schema { depth, min_rate, json, file } => Order::Schema {
            depth,
            min_rate,
            json,
            file: Some(name),
        },
        _ => o,
    }
}

/// The options of a command that a number goes with.
pub open spec fn takes_number(o: Order, arg: Seq<char>) -> bool {
    match o {
        Order::Head { .. } => arg == "-n"@,
        Order::Sample { .. } => arg == "-n"@ || arg == "--seed"@,
        Order::Stats { .. } => arg == "--top"@ || arg == "--max-errors"@,
        Order::Schema { .. } => arg == "--depth"@,
        _ => false,
    }
}

/// The options of a command.
pub open spec fn is_own_option(o: Order, arg: Seq<char>) -> bool {
    ||| takes_number(o, arg)
    ||| o is Stats && (arg == "--field"@ || arg == "--json"@)
    ||| o is Schema && (arg == "--min-rate"@ || arg == "--json"@)
}

/// The same, with the number `v` for the option `arg`.
pub open spec fn with_number(o: Order, arg: Seq<char>, v: nat) -> Order {
    match o {
        Order::Head { n, file } => Order::Head { n: v, file },
        Order::Sample { n, seed, file } => if arg == "-n"@ {
            Order::Sample { n: v, seed, file }
        } else {
            Order::Sample { n, seed: Some(v), file }
        },
        Order::Stats { fields, top, max_errors, json, file } => if arg == "--top"@ {
            Order::Stats { fields, top: v, max_errors, json, file }
        } else {
            Order::Stats { fields, top, max_errors: v, json, file }
        },
        Order::Schema { depth, min_rate, json, file } => Order::Schema {
            depth: v,
            min_rate,
            json,
            file,
        },
        _ => o,
    }
}

/// The largest number that an option takes.
pub open spec fn limit_of(arg: Seq<char>) -> nat {
    if arg == "--seed"@ {
        u64::MAX as nat
    } else {
        usize::MAX as nat
    }
}

// ---------------------------------------------------------------------------------------------
// Reading on
// ---------------------------------------------------------------------------------------------

/// What the arguments from position `i` on ask for, where those before ask for `o`.
spec fn reads_on(args: Seq<Seq<char>>, rates: Seq<Option<u64>>, i: int, o: Order) -> Order {
    match o {
        Order::Head { n, file } => cli::head_order(args, i, n, file),
        Order::Sample { n, seed, file } => cli::sample_order(args, i, n, seed, file),
        Order::Stats { fields, top, max_errors, json, file } => cli::stats_order(
            args,
            i,
            fields,
            top,
            max_errors,
            json,
            file,
        ),
        Order::Schema { depth, min_rate, json, file } => cli::schema_order(
            args,
            rates,
            i,
            depth,
            min_rate,
            json,
            file,
        ),
        _ => o,
    }
}

/// The name of a command.
pub open spec fn name_of(o: Order) -> Seq<char> {
    match o {
        Order::Head { .. } => "head"@,
        Order::Sample { .. } => "sample"@,
        Order::Stats { .. } => "stats"@,
        _ => "schema"@,
    }
}

/// Further arguments leave it to the last of the sound ones what was asked for so far.
proof fn lemma_reads_on(
    a: Seq<Seq<char>>,
    b: Seq<Seq<char>>,
    ra: Seq<Option<u64>>,
    rates: Seq<Option<u64>>,
    i: int,
    o: Order,
)
    requires
        0 <= i <= a.len(),
        is_sound(o),
        ra.len() == a.len(),
        ra.len() <= rates.len(),
        forall|k: int| 0 <= k < ra.len() ==> #[trigger] rates[k] == ra[k],
        is_sound(reads_on(a, ra, i, o)),
    ensures
        reads_on(a + b, rates, i, o) == reads_on(
            a + b,
            rates,
            a.len() as int,
            reads_on(a, ra, i, o),
        ),
        name_of(reads_on(a, ra, i, o)) == name_of(o),
    decreases a.len() - i,
{
    let all = a + b;
    assert(forall|k: int| 0 <= k < a.len() ==> #[trigger] all[k] == a[k]);
    if i < a.len() {
        assert(all[i] == a[i]);
        if i + 1 < a.len() {
            assert(all[i + 1] == a[i + 1]);
            assert(rates[i + 1] == ra[i + 1]);
        }
        match o {
            Order::Head { n, file } => {
                if a[i] == "-n"@ {
                    let v = cli::number_behind(a, i, usize::MAX as nat)->Ok_0;
                    lemma_reads_on(a, b, ra, rates, i + 2, Order::Head { n: v, file });
                } else {
                    lemma_reads_on(a, b, ra, rates, i + 1, Order::Head { n, file: Some(a[i]) });
                }
            },
            Order::Sample { n, seed, file } => {
                if a[i] == "-n"@ {
                    let v = cli::number_behind(a, i, usize::MAX as nat)->Ok_0;
                    lemma_reads_on(a, b, ra, rates, i + 2, Order::Sample { n: v, seed, file });
                } else if a[i] == "--seed"@ {
                    let v = cli::number_behind(a, i, u64::MAX as nat)->Ok_0;
                    lemma_reads_on(
                        a,
                        b,
                        ra,
                        rates,
                        i + 2,
                        Order::Sample { n, seed: Some(v), file },
                    );
                } else {
                    lemma_reads_on(
                        a,
                        b,
                        ra,
                        rates,
                        i + 1,
                        Order::Sample { n, seed, file: Some(a[i]) },
                    );
                }
            },
            Order::Stats { fields, top, max_errors, json, file } => {
                if a[i] == "--field"@ {
                    let v = cli::path_behind(a, i)->Ok_0;
                    let now = fields.push(v);
                    lemma_reads_on(
                        a,
                        b,
                        ra,
                        rates,
                        i + 2,
                        Order::Stats { fields: now, top, max_errors, json, file },
                    );
                } else if a[i] == "--top"@ {
                    let v = cli::number_behind(a, i, usize::MAX as nat)->Ok_0;
                    lemma_reads_on(
                        a,
                        b,
                        ra,
                        rates,
                        i + 2,
                        Order::Stats { fields, top: v, max_errors, json, file },
                    );
                } else if a[i] == "--max-errors"@ {
                    let v = cli::number_behind(a, i, usize::MAX as nat)->Ok_0;
                    lemma_reads_on(
                        a,
                        b,
                        ra,
                        rates,
                        i + 2,
                        Order::Stats { fields, top, max_errors: v, json, file },
                    );
                } else if a[i] == "--json"@ {
                    lemma_reads_on(
                        a,
                        b,
                        ra,
                        rates,
                        i + 1,
                        Order::Stats { fields, top, max_errors, json: true, file },
                    );
                } else {
                    lemma_reads_on(
                        a,
                        b,
                        ra,
                        rates,
                        i + 1,
                        Order::Stats { fields, top, max_errors, json, file: Some(a[i]) },
                    );
                }
            },
            Order::Schema { depth, min_rate, json, file } => {
                if a[i] == "--depth"@ {
                    let v = cli::number_behind(a, i, usize::MAX as nat)->Ok_0;
                    lemma_reads_on(
                        a,
                        b,
                        ra,
                        rates,
                        i + 2,
                        Order::Schema { depth: v, min_rate, json, file },
                    );
                } else if a[i] == "--min-rate"@ {
                    let v = cli::rate_behind(a, ra, i)->Ok_0;
                    lemma_reads_on(
                        a,
                        b,
                        ra,
                        rates,
                        i + 2,
                        Order::Schema { depth, min_rate: v, json, file },
                    );
                } else if a[i] == "--json"@ {
                    lemma_reads_on(
                        a,
                        b,
                        ra,
                        rates,
                        i + 1,
                        Order::Schema { depth, min_rate, json: true, file },
                    );
                } else {
                    lemma_reads_on(
                        a,
                        b,
                        ra,
                        rates,
                        i + 1,
                        Order::Schema { depth, min_rate, json, file: Some(a[i]) },
                    );
                }
            },
            _ => {},
        }
    }
}

/// No two words of the command line are the same.
proof fn lemma_words()
    ensures
        "head"@ != "sample"@,
        "head"@ != "stats"@,
        "head"@ != "schema"@,
        "sample"@ != "stats"@,
        "sample"@ != "schema"@,
        "stats"@ != "schema"@,
        "-n"@ != "--seed"@,
        "--min-rate"@ != "-n"@ && "--min-rate"@ != "--seed"@ && "--min-rate"@ != "--field"@,
        "--min-rate"@ != "--top"@ && "--min-rate"@ != "--max-errors"@,
        "--field"@ != "-n"@ && "--field"@ != "--seed"@ && "--field"@ != "--depth"@,
        "--top"@ != "--seed"@,
        "--max-errors"@ != "--seed"@,
        "--depth"@ != "--seed"@,
        "--field"@ != "--top"@,
        "--field"@ != "--max-errors"@,
        "--field"@ != "--json"@,
        "--top"@ != "--max-errors"@,
        "--top"@ != "--json"@,
        "--max-errors"@ != "--json"@,
        "--depth"@ != "--min-rate"@,
        "--depth"@ != "--json"@,
        "--min-rate"@ != "--json"@,
        "-n"@ != "-h"@ && "-n"@ != "--help"@,
        "--seed"@ != "-h"@ && "--seed"@ != "--help"@,
        "--field"@ != "-h"@ && "--field"@ != "--help"@,
        "--top"@ != "-h"@ && "--top"@ != "--help"@,
        "--max-errors"@ != "-h"@ && "--max-errors"@ != "--help"@,
        "--json"@ != "-h"@ && "--json"@ != "--help"@,
        "--depth"@ != "-h"@ && "--depth"@ != "--help"@,
        "--min-rate"@ != "-h"@ && "--min-rate"@ != "--help"@,
        forall|o: Order, arg: Seq<char>| #[trigger]
            is_own_option(o, arg) ==> arg.len() > 1 && arg[0] == '-' && arg != "-h"@ && arg
                != "--help"@,
        "-h"@.len() == 2 && "-h"@[0] == '-',
        "--help"@.len() == 6 && "--help"@[0] == '-',
        "head"@.len() == 4 && "head"@[0] == 'h',
        "sample"@.len() == 6 && "sample"@[0] == 's',
        "stats"@.len() == 5 && "stats"@[0] == 's',
        "schema"@.len() == 6 && "schema"@[0] == 's',
{
    reveal_strlit("head");
    reveal_strlit("sample");
    reveal_strlit("stats");
    reveal_strlit("schema");
    reveal_strlit("-n");
    reveal_strlit("--seed");
    reveal_strlit("--field");
    reveal_strlit("--top");
    reveal_strlit("--max-errors");
    reveal_strlit("--json");
    reveal_strlit("--depth");
    reveal_strlit("--min-rate");
    reveal_strlit("-h");
    reveal_strlit("--help");
    assert("head"@.len() == 4 && "sample"@.len() == 6 && "stats"@.len() == 5);
    assert("schema"@.len() == 6 && "-n"@.len() == 2 && "--seed"@.len() == 6);
    assert("--field"@.len() == 7 && "--top"@.len() == 5 && "--max-errors"@.len() == 12);
    assert("--json"@.len() == 6 && "--depth"@.len() == 7 && "--min-rate"@.len() == 10);
    assert("-h"@.len() == 2 && "--help"@.len() == 6);
    assert("sample"@[1] == 'a' && "schema"@[1] == 'c');
    assert("-n"@[1] == 'n' && "-h"@[1] == 'h');
    assert("--field"@[2] == 'f' && "--depth"@[2] == 'd');
    assert("--seed"@[2] == 's' && "--json"@[2] == 'j' && "--help"@[2] == 'h');
}

/// A sound list of arguments, read as far as it goes.
proof fn lemma_order_reads_on(
    a: Seq<Seq<char>>,
    b: Seq<Seq<char>>,
    ra: Seq<Option<u64>>,
    rates: Seq<Option<u64>>,
)
    requires
        is_sound(cli::order(a, ra)),
        ra.len() == a.len(),
        rates.len() == a.len() + b.len(),
        rates.take(a.len() as int) == ra,
    ensures
        cli::order(a + b, rates) == reads_on(a + b, rates, a.len() as int, cli::order(a, ra)),
        a.len() > 0,
        a[0] == name_of(cli::order(a, ra)),
{
    lemma_words();
    assert((a + b)[0] == a[0]);
    assert forall|k: int| 0 <= k < ra.len() implies #[trigger] rates[k] == ra[k] by {
        assert(rates.take(a.len() as int)[k] == rates[k]);
    }
    let first = if a[0] == "head"@ {
        Order::Head { n: 10, file: None }
    } else if a[0] == "sample"@ {
        Order::Sample { n: 10, seed: None, file: None }
    } else if a[0] == "stats"@ {
        Order::Stats { fields: Seq::empty(), top: 10, max_errors: 10, json: false, file: None }
    } else {
        Order::Schema { depth: 3, min_rate: 0, json: false, file: None }
    };
    lemma_reads_on(a, b, ra, rates, 1, first);
}

// ---------------------------------------------------------------------------------------------
// Laws
// ---------------------------------------------------------------------------------------------

/// A command alone asks for ten lines, a sample of ten, a report without fields on ten values and
/// ten broken lines, and a schema three levels deep of all paths; each as text, and of standard
/// input.
pub proof fn law_commands_have_defaults(rates: Seq<Option<u64>>)
    ensures
        cli::order(seq!["head"@], rates) == (Order::Head { n: 10, file: None }),
        cli::order(seq!["sample"@], rates) == (Order::Sample { n: 10, seed: None, file: None }),
        cli::order(seq!["stats"@], rates) == (Order::Stats {
            fields: Seq::empty(),
            top: 10,
            max_errors: 10,
            json: false,
            file: None,
        }),
        cli::order(seq!["schema"@], rates) == (Order::Schema {
            depth: 3,
            min_rate: 0,
            json: false,
            file: None,
        }),
{
    lemma_words();
}

/// Arguments that start with anything but a command ask for help or make no sense.
pub proof fn law_a_command_comes_first(args: Seq<Seq<char>>, rates: Seq<Option<u64>>)
    ensures
        args.len() == 0 ==> cli::order(args, rates) == Order::Usage("no command given"@),
        args.len() > 0 && (args[0] == "-h"@ || args[0] == "--help"@) ==> cli::order(args, rates)
            == Order::Help,
        args.len() > 0 && args[0] != "-h"@ && args[0] != "--help"@ && args[0] != "head"@ && args[0]
            != "sample"@ && args[0] != "stats"@ && args[0] != "schema"@ ==> cli::order(args, rates)
            == Order::Usage("unknown command '"@ + args[0] + "'"@),
{
    lemma_words();
}

/// An option with a number sets that number and nothing else; a number may have a plus sign and
/// zeros in front.
pub proof fn law_number_options_set_a_number(
    a: Seq<Seq<char>>,
    ra: Seq<Option<u64>>,
    arg: Seq<char>,
    n: nat,
    zeros: nat,
    rates: Seq<Option<u64>>,
)
    requires
        is_sound(cli::order(a, ra)),
        ra.len() == a.len(),
        rates.len() == a.len() + 2,
        rates.take(a.len() as int) == ra,
        takes_number(cli::order(a, ra), arg),
        n <= limit_of(arg),
    ensures
        ({
            let o = cli::order(a, ra);
            let numeral = text::zeros(zeros) + text::decimal(n);
            &&& cli::order(a + seq![arg, numeral], rates) == with_number(o, arg, n)
            &&& cli::order(a + seq![arg, seq!['+'] + numeral], rates) == with_number(o, arg, n)
        }),
{
    let numeral = text::zeros(zeros) + text::decimal(n);
    lemma_words();
    text::law_numerals_are_read(n, zeros);
    lemma_one_number(a, ra, arg, numeral, rates);
    lemma_one_number(a, ra, arg, seq!['+'] + numeral, rates);
}

proof fn lemma_one_number(
    a: Seq<Seq<char>>,
    ra: Seq<Option<u64>>,
    arg: Seq<char>,
    numeral: Seq<char>,
    rates: Seq<Option<u64>>,
)
    requires
        is_sound(cli::order(a, ra)),
        ra.len() == a.len(),
        rates.len() == a.len() + 2,
        rates.take(a.len() as int) == ra,
        takes_number(cli::order(a, ra), arg),
        text::unsigned_value(numeral) is Some,
        text::unsigned_value(numeral)->0 <= limit_of(arg),
    ensures
        cli::order(a + seq![arg, numeral], rates) == with_number(
            cli::order(a, ra),
            arg,
            text::unsigned_value(numeral)->0,
        ),
{
    let b = seq![arg, numeral];
    let all = a + b;
    let k = a.len() as int;
    lemma_words();
    lemma_order_reads_on(a, b, ra, rates);
    assert(all[k] == arg && all[k + 1] == numeral);
    let o = cli::order(a, ra);
    let now = with_number(o, arg, text::unsigned_value(numeral)->0);
    assert(reads_on(all, rates, k + 2, now) == now);
    assert(reads_on(all, rates, k, o) == reads_on(all, rates, k + 2, now));
}

/// The option `--field` adds the path behind it; `--min-rate` sets the rate; `--json` asks for
/// JSON; and each changes nothing else.
pub proof fn law_other_options_set_what_they_name(
    a: Seq<Seq<char>>,
    ra: Seq<Option<u64>>,
    source: Seq<char>,
    r1: Seq<Option<u64>>,
    r2: Seq<Option<u64>>,
)
    requires
        is_sound(cli::order(a, ra)),
        ra.len() == a.len(),
        r1.len() == a.len() + 1,
        r1.take(a.len() as int) == ra,
        r2.len() == a.len() + 2,
        r2.take(a.len() as int) == ra,
    ensures
        ({
            let o = cli::order(a, ra);
            &&& match o {
                Order::Stats { fields, top, max_errors, json, file } => {
                    &&& path::compile(source) matches Ok(steps) ==> cli::order(
                        a + seq!["--field"@, source],
                        r2,
                    ) == (Order::Stats {
                        fields: fields.push(PathModel { source, steps }),
                        top,
                        max_errors,
                        json,
                        file,
                    })
                    &&& cli::order(a + seq!["--json"@], r1) == (Order::Stats {
                        fields,
                        top,
                        max_errors,
                        json: true,
                        file,
                    })
                },
                Order::Schema { depth, min_rate, json, file } => {
                    &&& r2.last() matches Some(bits) ==> cli::order(
                        a + seq!["--min-rate"@, source],
                        r2,
                    ) == (Order::Schema { depth, min_rate: bits, json, file })
                    &&& cli::order(a + seq!["--json"@], r1) == (Order::Schema {
                        depth,
                        min_rate,
                        json: true,
                        file,
                    })
                },
                _ => true,
            }
        }),
{
    let o = cli::order(a, ra);
    let k = a.len() as int;
    lemma_words();
    lemma_order_reads_on(a, seq!["--json"@], ra, r1);
    assert((a + seq!["--json"@])[k] == "--json"@);
    match o {
        Order::Stats { fields, top, max_errors, json, file } => {
            let b = seq!["--field"@, source];
            lemma_order_reads_on(a, b, ra, r2);
            assert((a + b)[k] == "--field"@ && (a + b)[k + 1] == source);
            if let Ok(steps) = path::compile(source) {
                let now = fields.push(PathModel { source, steps });
                assert(reads_on(a + b, r2, k, o) == cli::stats_order(
                    a + b,
                    k + 2,
                    now,
                    top,
                    max_errors,
                    json,
                    file,
                ));
            }
            assert(reads_on(a + seq!["--json"@], r1, k, o) == cli::stats_order(
                a + seq!["--json"@],
                k + 1,
                fields,
                top,
                max_errors,
                true,
                file,
            ));
        },
        Order::Schema { depth, min_rate, json, file } => {
            let b = seq!["--min-rate"@, source];
            lemma_order_reads_on(a, b, ra, r2);
            assert((a + b)[k] == "--min-rate"@ && (a + b)[k + 1] == source);
            if let Some(bits) = r2.last() {
                assert(reads_on(a + b, r2, k, o) == cli::schema_order(
                    a + b,
                    r2,
                    k + 2,
                    depth,
                    bits,
                    json,
                    file,
                ));
            }
            assert(reads_on(a + seq!["--json"@], r1, k, o) == cli::schema_order(
                a + seq!["--json"@],
                r1,
                k + 1,
                depth,
                min_rate,
                true,
                file,
            ));
        },
        _ => {},
    }
}

/// An argument that does not look like an option, or is a dash alone, names the file to read, if
/// no file was named before, and changes nothing else.
pub proof fn law_a_plain_argument_names_the_file(
    a: Seq<Seq<char>>,
    ra: Seq<Option<u64>>,
    name: Seq<char>,
    rates: Seq<Option<u64>>,
)
    requires
        is_sound(cli::order(a, ra)),
        ra.len() == a.len(),
        rates.len() == a.len() + 1,
        rates.take(a.len() as int) == ra,
        name.len() <= 1 || name[0] != '-',
        file_in(cli::order(a, ra)) is None,
    ensures
        cli::order(a + seq![name], rates) == with_file(cli::order(a, ra), name),
{
    let o = cli::order(a, ra);
    let b = seq![name];
    let k = a.len() as int;
    lemma_words();
    lemma_order_reads_on(a, b, ra, rates);
    assert((a + b)[k] == name);
    assert(!is_own_option(o, name));
    let now = with_file(o, name);
    assert(reads_on(a + b, rates, k + 1, now) == now);
    assert(reads_on(a + b, rates, k, o) == reads_on(a + b, rates, k + 1, now));
}

/// The first argument that makes no sense decides, whatever follows it: a call for help, an
/// unknown option, or a second file.
pub proof fn law_the_first_bad_argument_decides(
    a: Seq<Seq<char>>,
    ra: Seq<Option<u64>>,
    arg: Seq<char>,
    more: Seq<Seq<char>>,
    rates: Seq<Option<u64>>,
)
    requires
        is_sound(cli::order(a, ra)),
        ra.len() == a.len(),
        rates.len() == a.len() + 1 + more.len(),
        rates.take(a.len() as int) == ra,
    ensures
        ({
            let o = cli::order(a, ra);
            let all = a + (seq![arg] + more);
            let looks_like_one = arg.len() > 1 && arg[0] == '-';
            &&& arg == "-h"@ || arg == "--help"@ ==> cli::order(all, rates) == Order::Help
            &&& looks_like_one && arg != "-h"@ && arg != "--help"@ && !is_own_option(o, arg)
                ==> cli::order(all, rates) == Order::Usage(
                a[0] + ": unknown option '"@ + arg + "'"@,
            )
            &&& !looks_like_one && file_in(o) is Some ==> cli::order(all, rates) == Order::Usage(
                a[0] + ": too many arguments"@,
            )
        }),
{
    let o = cli::order(a, ra);
    let b = seq![arg] + more;
    let k = a.len() as int;
    lemma_words();
    lemma_order_reads_on(a, b, ra, rates);
    assert((a + b)[k] == arg);
    if arg == "-h"@ || arg == "--help"@ {
        assert(!is_own_option(o, arg));
    }
    if !(arg.len() > 1 && arg[0] == '-') {
        assert(!is_own_option(o, arg));
    }
}

/// An option that a value goes with makes no sense at the end of the arguments, nor before
/// anything that is no number, or too large a one, or no path, where it needs that.
pub proof fn law_options_need_their_values(
    a: Seq<Seq<char>>,
    ra: Seq<Option<u64>>,
    arg: Seq<char>,
    value: Seq<char>,
    more: Seq<Seq<char>>,
    r1: Seq<Option<u64>>,
    rates: Seq<Option<u64>>,
)
    requires
        is_sound(cli::order(a, ra)),
        ra.len() == a.len(),
        r1.len() == a.len() + 1,
        r1.take(a.len() as int) == ra,
        rates.len() == a.len() + 2 + more.len(),
        rates.take(a.len() as int) == ra,
        is_own_option(cli::order(a, ra), arg),
        arg != "--json"@,
    ensures
        ({
            let o = cli::order(a, ra);
            let all = a + (seq![arg, value] + more);
            let no_number = Order::Usage(arg + " expects a number, got '"@ + value + "'"@);
            &&& cli::order(a + seq![arg], r1) == Order::Usage(arg + " requires a value"@)
            &&& takes_number(o, arg) && text::unsigned_value(value) is None ==> cli::order(
                all,
                rates,
            ) == no_number
            &&& takes_number(o, arg) && (text::unsigned_value(value) matches Some(n) && n
                > limit_of(arg)) ==> cli::order(all, rates) == no_number
            &&& arg == "--min-rate"@ && rates[(a.len() + 1) as int] is None ==> cli::order(all, rates)
                == no_number
            &&& arg == "--field"@ ==> (path::compile(value) matches Err(fault) ==> cli::order(
                all,
                rates,
            ) == Order::Usage(
                "invalid field path '"@ + value + "': "@ + path::fault_text(fault),
            ))
        }),
{
    let o = cli::order(a, ra);
    let b = seq![arg];
    let c = seq![arg, value] + more;
    let k = a.len() as int;
    lemma_words();
    lemma_order_reads_on(a, b, ra, r1);
    assert((a + b)[k] == arg);
    lemma_order_reads_on(a, c, ra, rates);
    assert((a + c)[k] == arg);
    assert((a + c)[k + 1] == value);
}

} // verus!
