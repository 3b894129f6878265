//! The rules by which the `aether` command line reads its arguments: the
//! command, `--key value` / `--key=value` flags, unsigned integers,
//! comma-separated id lists, and the population size used for evolutionary
//! training.

use vstd::prelude::*;
use crate::text::{append_chars, chars_of, copy_chars, same_chars, string_of, trim, trim_chars};

verus! {

/// A command of the `aether` program.
#[derive(Debug, Clone, Copy, PartialEq, Eq, Structural)]
pub enum Command {
    /// Show a preset's configuration and parameter count.
    Info,
    /// Forward pass and greedy generation.
    Demo,
    /// Evolutionary training on toy patterns.
    Train,
    /// Divergent creative dreaming.
    Dream,
    /// Train a tokenizer and show a roundtrip.
    Tokenize,
    /// Print usage.
    Help,
    /// Anything else.
    Unknown,
}

/// The command that the name `n` selects.
pub open spec fn command_named(n: Seq<char>) -> Command {
    if n == "info"@ {
        Command::Info
    } else if n == "demo"@ {
        Command::Demo
    } else if n == "train"@ {
        Command::Train
    } else if n == "dream"@ {
        Command::Dream
    } else if n == "tokenize"@ {
        Command::Tokenize
    } else if n == "help"@ || n == "--help"@ || n == "-h"@ {
        Command::Help
    } else {
        Command::Unknown
    }
}

/// The command that the first argument names; with no argument, `Help`.
pub fn command_of(args: &[String]) -> (r: Command)
    ensures
        r == if args@.len() == 0 {
            Command::Help
        } else {
            command_named(args@[0]@)
        },
{
    if args.len() == 0 {
        return Command::Help;
    }
    let n = chars_of(args[0].as_str());
    if same_chars(&n, &chars_of("info")) {
        Command::Info
    } else if same_chars(&n, &chars_of("demo")) {
        Command::Demo
    } else if same_chars(&n, &chars_of("train")) {
        Command::Train
    } else if same_chars(&n, &chars_of("dream")) {
        Command::Dream
    } else if same_chars(&n, &chars_of("tokenize")) {
        Command::Tokenize
    } else if same_chars(&n, &chars_of("help")) || same_chars(&n, &chars_of("--help"))
        || same_chars(&n, &chars_of("-h")) {
        Command::Help
    } else {
        Command::Unknown
    }
}

/// Whether the `--preset` flag's value selects the small preset (anything
/// else, or no value, selects the tiny one).
pub fn is_small_preset(value: &Option<String>) -> (r: bool)
    ensures
        r == match value {
            Some(v) => v@ == "small"@,
            None => false,
        },
{
    match value {
        Some(v) => same_chars(&chars_of(v.as_str()), &chars_of("small")),
        None => false,
    }
}

/// `--key`.
pub open spec fn flag_name(key: Seq<char>) -> Seq<char> {
    seq!['-', '-'] + key
}

/// Whether `s` begins with `p`.
pub open spec fn starts_with(s: Seq<char>, p: Seq<char>) -> bool {
    p.len() <= s.len() && s.take(p.len() as int) == p
}

/// The value given to flag `key`: scanning the arguments in order, an
/// argument equal to `--key` yields the next argument (none when it is the
/// last), and an argument starting with `--key=` yields the rest of it.
pub open spec fn flag_value(args: Seq<Seq<char>>, key: Seq<char>) -> Option<Seq<char>>
    decreases args.len(),
{
    if args.len() == 0 {
        None
    } else if args[0] == flag_name(key) {
        if args.len() > 1 {
            Some(args[1])
        } else {
            None
        }
    } else if starts_with(args[0], flag_name(key).push('=')) {
        Some(args[0].skip(key.len() as int + 3))
    } else {
        flag_value(args.drop_first(), key)
    }
}

/// Read `--key value` or `--key=value`.
pub fn flag(args: &[String], key: &str) -> (r: Option<String>)
    ensures
        match r {
            Some(v) => flag_value(args@.map_values(|a: String| a@), key@) == Some(v@),
            None => flag_value(args@.map_values(|a: String| a@), key@) is None,
        },
{
    let ghost av = args@.map_values(|a: String| a@);
    let mut exact: Vec<char> = Vec::new();
    exact.push('-');
    exact.push('-');
    let kc = chars_of(key);
    append_chars(&mut exact, &kc);
    assert(exact@ =~= flag_name(key@));
    let mut prefix = copy_chars(&exact);
    prefix.push('=');
    let n = args.len();
    let mut i: usize = 0;
    assert(av.skip(0) =~= av);
    while i < n
        invariant
            i <= n,
            n == args@.len(),
            av == args@.map_values(|a: String| a@),
            exact@ == flag_name(key@),
            prefix@ == flag_name(key@).push('='),
            flag_value(av, key@) == flag_value(av.skip(i as int), key@),
        decreases n - i,
    {
        let arg = chars_of(args[i].as_str());
        let ghost rest = av.skip(i as int);
        assert(rest[0] == arg@);
        if same_chars(&arg, &exact) {
            if i + 1 < n {
                assert(rest[1] == av[i + 1]);
                return Some(args[i + 1].clone());
            } else {
                return None;
            }
        }
        if arg.len() >= prefix.len() {
            let mut k: usize = 0;
            let mut matches = true;
            assert(arg@.take(0) =~= prefix@.take(0));
            while k < prefix.len()
                invariant
                    k <= prefix.len() <= arg.len(),
                    matches == (arg@.take(k as int) == prefix@.take(k as int)),
                decreases prefix.len() - k,
            {
                if arg[k] != prefix[k] {
                    matches = false;
                }
                proof {
                    if matches {
                        assert(arg@.take(k + 1) =~= prefix@.take(k + 1));
                    } else if arg@.take(k + 1) == prefix@.take(k + 1) {
                        assert(arg@.take(k + 1).take(k as int) =~= arg@.take(k as int));
                        assert(prefix@.take(k + 1).take(k as int) =~= prefix@.take(k as int));
                        assert(arg@.take(k + 1)[k as int] == prefix@.take(k + 1)[k as int]);
                    }
                }
                k = k + 1;
            }
            assert(prefix@.take(k as int) =~= prefix@);
            if matches {
                let mut tail: Vec<char> = Vec::new();
                let mut t: usize = prefix.len();
                while t < arg.len()
                    invariant
                        prefix.len() <= t <= arg.len(),
                        tail@ == arg@.subrange(prefix.len() as int, t as int),
                    decreases arg.len() - t,
                {
                    tail.push(arg[t]);
                    t = t + 1;
                    assert(tail@ =~= arg@.subrange(prefix.len() as int, t as int));
                }
                assert(tail@ =~= arg@.skip(key@.len() as int + 3));
                return Some(string_of(&tail));
            }
        }
        assert(rest.drop_first() =~= av.skip(i + 1));
        i = i + 1;
    }
    None
}

/// Whether `c` is an ASCII digit.
pub open spec fn is_digit(c: char) -> bool {
    '0' <= c <= '9'
}

/// The number that the decimal digits `s` spell.
pub open spec fn digits_value(s: Seq<char>) -> nat
    decreases s.len(),
{
    if s.len() == 0 {
        0
    } else {
        digits_value(s.drop_last()) * 10 + ((s.last() as int - '0' as int) as nat)
    }
}

/// The digits of `s` after one optional leading `+`.
pub open spec fn unsigned_digits(s: Seq<char>) -> Seq<char> {
    if s.len() > 0 && s[0] == '+' {
        s.drop_first()
    } else {
        s
    }
}

/// What `usize::from_str` accepts: an optional `+`, then one or more ASCII
/// digits whose value fits in `usize`.
pub open spec fn parsed_usize(s: Seq<char>) -> Option<usize> {
    let d = unsigned_digits(s);
    if d.len() > 0 && (forall|i: int| 0 <= i < d.len() ==> #[trigger] is_digit(d[i]))
        && digits_value(d) <= usize::MAX {
        Some(digits_value(d) as usize)
    } else {
        None
    }
}

proof fn lemma_digits_value_prefix(s: Seq<char>, k: int)
    requires
        0 <= k <= s.len(),
        forall|i: int| 0 <= i < s.len() ==> #[trigger] is_digit(s[i]),
    ensures
        digits_value(s.take(k)) <= digits_value(s),
    decreases s.len() - k,
{
    if k < s.len() {
        lemma_digits_value_prefix(s, k + 1);
        assert(s.take(k + 1).drop_last() =~= s.take(k));
        assert(is_digit(s[k]));
    } else {
        assert(s.take(k) =~= s);
    }
}

/// Parse an unsigned integer the way `str::parse::<usize>` does.
pub fn parse_usize_chars(s: &Vec<char>) -> (r: Option<usize>)
    ensures
        r == parsed_usize(s@),
{
    let mut start: usize = 0;
    if s.len() > 0 && s[0] == '+' {
        start = 1;
    }
    let ghost d = unsigned_digits(s@);
    assert(d =~= s@.skip(start as int));
    if start >= s.len() {
        return None;
    }
    let mut k: usize = start;
    while k < s.len()
        invariant
            start <= k <= s.len(),
            d =~= s@.skip(start as int),
            d == unsigned_digits(s@),
            forall|i: int| start <= i < k ==> #[trigger] is_digit(s@[i]),
        decreases s.len() - k,
    {
        if !('0' <= s[k] && s[k] <= '9') {
            assert(d[k - start] == s@[k as int]);
            assert(!is_digit(d[k - start]));
            return None;
        }
        k = k + 1;
    }
    assert forall|i: int| 0 <= i < d.len() implies #[trigger] is_digit(d[i]) by {
        assert(d[i] == s@[i + start]);
    }
    let mut v: usize = 0;
    let mut k: usize = start;
    while k < s.len()
        invariant
            start <= k <= s.len(),
            d =~= s@.skip(start as int),
            d == unsigned_digits(s@),
            forall|i: int| 0 <= i < d.len() ==> #[trigger] is_digit(d[i]),
            v == digits_value(d.take(k - start)),
        decreases s.len() - k,
    {
        assert(d[k - start] == s@[k as int]);
        assert(is_digit(d[k - start]));
        let dg = (s[k] as u32 - '0' as u32) as usize;
        assert(d.take(k + 1 - start).drop_last() =~= d.take(k - start));
        assert(d.take(k + 1 - start).last() == s@[k as int]);
        assert(digits_value(d.take(k + 1 - start)) == v * 10 + dg);
        match v.checked_mul(10) {
            None => {
                proof {
                    lemma_digits_value_prefix(d, k + 1 - start);
                }
                return None;
            },
            Some(v10) => match v10.checked_add(dg) {
                None => {
                    proof {
                        lemma_digits_value_prefix(d, k + 1 - start);
                    }
                    return None;
                },
                Some(nv) => {
                    v = nv;
                },
            },
        }
        k = k + 1;
    }
    assert(d.take(k - start) =~= d);
    Some(v)
}

/// Parse an unsigned integer the way `str::parse::<usize>` does.
pub fn parse_usize(s: &str) -> (r: Option<usize>)
    ensures
        r == parsed_usize(s@),
{
    parse_usize_chars(&chars_of(s))
}

/// The pieces of `s` still to come when the piece read so far is `cur`.
pub open spec fn comma_pieces_from(s: Seq<char>, cur: Seq<char>) -> Seq<Seq<char>>
    decreases s.len(),
{
    if s.len() == 0 {
        seq![cur]
    } else if s[0] == ',' {
        seq![cur] + comma_pieces_from(s.drop_first(), seq![])
    } else {
        comma_pieces_from(s.drop_first(), cur.push(s[0]))
    }
}

/// The pieces between commas, empty ones included (what `str::split(',')`
/// yields).
pub open spec fn comma_pieces(s: Seq<char>) -> Seq<Seq<char>> {
    comma_pieces_from(s, seq![])
}

/// The numbers among `pieces`, each trimmed, those that do not parse left out.
pub open spec fn parsed_ids(pieces: Seq<Seq<char>>) -> Seq<usize>
    decreases pieces.len(),
{
    if pieces.len() == 0 {
        seq![]
    } else {
        parsed_ids(pieces.drop_last()) + match parsed_usize(trim(pieces.last())) {
            Some(v) => seq![v],
            None => seq![],
        }
    }
}

/// Parse a comma-separated id list such as `1,2,3`; entries that are not
/// unsigned integers are skipped.
pub fn parse_ids(s: &str) -> (r: Vec<usize>)
    ensures
        r@ == parsed_ids(comma_pieces(s@)),
{
    let cs = chars_of(s);
    let ghost sv = cs@;
    // Split at commas.
    let mut pieces: Vec<Vec<char>> = Vec::new();
    let mut cur: Vec<char> = Vec::new();
    let mut i: usize = 0;
    assert(sv.skip(0) =~= sv);
    while i < cs.len()
        invariant
            i <= cs.len(),
            sv == cs@,
            comma_pieces(sv) == pieces@.map_values(|p: Vec<char>| p@) + comma_pieces_from(
                sv.skip(i as int),
                cur@,
            ),
        decreases cs.len() - i,
    {
        assert(sv.skip(i as int).drop_first() =~= sv.skip(i + 1));
        assert(sv.skip(i as int)[0] == sv[i as int]);
        if cs[i] == ',' {
            let ghost old_p = pieces@.map_values(|p: Vec<char>| p@);
            let ghost cv = cur@;
            pieces.push(cur);
            assert(pieces@.map_values(|p: Vec<char>| p@) =~= old_p + seq![cv]);
            cur = Vec::new();
            assert(pieces@.map_values(|p: Vec<char>| p@) + comma_pieces_from(
                sv.skip(i + 1),
                cur@,
            ) =~= comma_pieces(sv));
        } else {
            cur.push(cs[i]);
        }
        i = i + 1;
    }
    assert(sv.skip(i as int).len() == 0);
    let ghost old_p = pieces@.map_values(|p: Vec<char>| p@);
    let ghost cv = cur@;
    pieces.push(cur);
    assert(pieces@.map_values(|p: Vec<char>| p@) =~= old_p + seq![cv]);
    let ghost pv = pieces@.map_values(|p: Vec<char>| p@);
    assert(pv =~= comma_pieces(sv));
    // Parse each piece.
    let mut ids: Vec<usize> = Vec::new();
    let mut k: usize = 0;
    while k < pieces.len()
        invariant
            k <= pieces.len(),
            pv == pieces@.map_values(|p: Vec<char>| p@),
            ids@ == parsed_ids(pv.take(k as int)),
        decreases pieces.len() - k,
    {
        let t = trim_chars(&pieces[k]);
        assert(pv.take(k + 1).drop_last() =~= pv.take(k as int));
        assert(pv.take(k + 1).last() == pieces@[k as int]@);
        match parse_usize_chars(&t) {
            Some(v) => {
                ids.push(v);
            },
            None => {
                assert(ids@ =~= ids@ + Seq::<usize>::empty());
            },
        }
        k = k + 1;
    }
    assert(pv.take(k as int) =~= pv);
    ids
}

/// The population given for a request is even, at least 2, at least the
/// request, and the smallest such: below the larger of the request and 2,
/// plus 2.
pub proof fn law_training_population(requested: usize)
    ensures
        population_for(requested) % 2 == 0,
        population_for(requested) >= 2,
        population_for(requested) >= requested,
        population_for(requested) < (if requested < 2 {
            2
        } else {
            requested as int
        }) + 2,
{
}

/// The population for evolutionary training: at least 2, rounded up to an
/// even number.
pub open spec fn population_for(requested: usize) -> int {
    let p = if requested < 2 {
        2
    } else {
        requested as int
    };
    if p % 2 != 0 {
        p + 1
    } else {
        p
    }
}

/// The population for evolutionary training: at least 2, rounded up to an
/// even number.
pub fn training_population(requested: usize) -> (r: usize)
    requires
        requested < usize::MAX,
    ensures
        r == population_for(requested),
        r % 2 == 0,
        r >= 2,
        r >= requested,
        r < (if requested < 2 {
            2
        } else {
            requested as int
        }) + 2,
{
    proof {
        law_training_population(requested);
    }
    let mut pop = requested;
    if pop < 2 {
        pop = 2;
    }
    if pop % 2 != 0 {
        pop = pop + 1;
    }
    pop
}

} // verus!
