//! Command-line arguments.

use crate::lexer::characters;
use crate::text::{own, put, same, views};
use vstd::prelude::*;

verus! {

/// The arguments of a tool: those that name something, and the options with their values.
#[derive(Debug)]
pub struct Args {
    pub positional: Vec<String>,
    pub options: Vec<(String, Option<String>)>,
}

/// An option with its value.
pub type Opt = (Seq<char>, Option<Seq<char>>);

/// The content of an optional text.
pub open spec fn opt_text(x: Option<String>) -> Option<Seq<char>> {
    match x {
        Some(s) => Some(s@),
        None => None,
    }
}

/// The content of options.
pub open spec fn option_views(v: Seq<(String, Option<String>)>) -> Seq<Opt> {
    Seq::new(v.len(), |i: int| (v[i].0@, opt_text(v[i].1)))
}

/// The options that every tool takes.
pub open spec fn common(s: Seq<char>) -> bool {
    s == "assertion"@ || s == "module"@ || s == "depth"@ || s == "verbose"@ || s == "backward"@
        || s == "forward"@ || s == "iterative"@ || s == "induction"@ || s == "delta-path"@ || s == "acyclic"@
        || s == "complete-path"@ || s == "disable-traceability"@ || s == "enable-ate"@
            || s == "disable-ate"@ || s == "uppercase-keywords"@
        || s == "help"@ || s == "version"@ || s == "enable-dynamic-reorder"@
            || s == "disable-dynamic-reorder"@ || s == "enable-slicer"@
        || s == "disable-slicer"@ || s == "solver"@ || s == "lemma"@ || s == "monolithic"@ || s == "smcinit"@
        || s == "branch"@ || s == "noprune"@ || s == "fullpath"@ || s == "latching"@ || s == "incremental"@
        || s == "incrinit"@ || s == "incrext"@ || s == "noslice"@ || s == "innerslice"@ || s == "testpurpose"@
        || s == "id"@ || s == "ed"@ || s == "md"@ || s == "static-order"@
}

/// Whether every tool takes the option.
fn is_common(s: &str) -> (r: bool)
    ensures
        r == common(s@),
{
    same(s, "assertion") || same(s, "module") || same(s, "depth") || same(s, "verbose") || same(s, "backward")
        || same(s, "forward") || same(s, "iterative") || same(s, "induction")
            || same(s, "delta-path") || same(s, "acyclic")
        || same(s, "complete-path") || same(s, "disable-traceability") || same(s, "enable-ate")
            || same(s, "disable-ate") || same(s, "uppercase-keywords")
        || same(s, "help") || same(s, "version") || same(s, "enable-dynamic-reorder")
            || same(s, "disable-dynamic-reorder") || same(s, "enable-slicer")
        || same(s, "disable-slicer") || same(s, "solver") || same(s, "lemma")
            || same(s, "monolithic") || same(s, "smcinit")
        || same(s, "branch") || same(s, "noprune") || same(s, "fullpath") || same(s, "latching")
            || same(s, "incremental")
        || same(s, "incrinit") || same(s, "incrext") || same(s, "noslice") || same(s, "innerslice")
            || same(s, "testpurpose")
        || same(s, "id") || same(s, "ed") || same(s, "md") || same(s, "static-order")
}

/// The short options that take a value.
pub open spec fn short_valued(s: Seq<char>) -> bool {
    s == "d"@ || s == "l"@ || s == "s"@ || s == "io"@ || s == "id"@ || s == "ed"@ || s == "md"@
}

/// The short options that take none.
pub open spec fn short_plain(s: Seq<char>) -> bool {
    s == "i"@ || s == "ei"@ || s == "ea"@ || s == "ice"@
}

/// The place of the first `=`, or the end.
pub open spec fn equals_at(s: Seq<char>, i: int) -> int
    decreases s.len() - i,
{
    if 0 <= i < s.len() && s[i] != '=' {
        equals_at(s, i + 1)
    } else {
        i
    }
}

/// What one argument is.
pub ghost enum Arg {
    /// The verbosity; the argument after it is its value.
    Verbosity,
    /// An option with its value.
    Given(Seq<char>, Seq<char>),
    /// An option whose value is the next argument.
    Valued(Seq<char>),
    /// An option without a value.
    Plain(Seq<char>),
    /// A name.
    Positional,
    /// No option that is known.
    Illegal,
}

/// What an argument is, where the options `valued` take a value.
pub open spec fn arg_of(a: Seq<char>, valued: Seq<Seq<char>>) -> Arg {
    if a == "-v"@ || a == "--verbose"@ {
        Arg::Verbosity
    } else if a.len() >= 2 && a[0] == '-' && a[1] == '-' {
        let rest = a.skip(2);
        let k = equals_at(rest, 0);
        if k < rest.len() {
            let key = rest.take(k);
            if common(key) || valued.contains(key) {
                Arg::Given(key, rest.skip(k + 1))
            } else {
                Arg::Illegal
            }
        } else if valued.contains(rest) {
            Arg::Valued(rest)
        } else if common(rest) {
            Arg::Plain(rest)
        } else {
            Arg::Illegal
        }
    } else if a.len() >= 1 && a[0] == '-' {
        let rest = a.skip(1);
        if short_valued(rest) {
            Arg::Valued(rest)
        } else if short_plain(rest) {
            Arg::Plain(rest)
        } else {
            Arg::Illegal
        }
    } else {
        Arg::Positional
    }
}

/// The arguments from `i` on, added to those before; or the first that is no option.
pub open spec fn scanned(
    args: Seq<Seq<char>>,
    i: int,
    valued: Seq<Seq<char>>,
    pos: Seq<Seq<char>>,
    opts: Seq<Opt>,
) -> Result<(Seq<Seq<char>>, Seq<Opt>), Seq<char>>
    decreases args.len() - i,
{
    if i < 0 || i >= args.len() {
        Ok((pos, opts))
    } else {
        let next: Option<Seq<char>> = if i + 1 < args.len() {
            Some(args[i + 1])
        } else {
            None
        };
        let after = if i + 1 < args.len() {
            i + 2
        } else {
            i + 1
        };
        match arg_of(args[i], valued) {
            Arg::Verbosity => scanned(args, after, valued, pos, opts),
            Arg::Given(k, v) => scanned(args, i + 1, valued, pos, opts.push((k, Some(v)))),
            Arg::Valued(k) => scanned(args, after, valued, pos, opts.push((k, next))),
            Arg::Plain(k) => scanned(args, i + 1, valued, pos, opts.push((k, None::<Seq<char>>))),
            Arg::Positional => scanned(args, i + 1, valued, pos.push(args[i]), opts),
            Arg::Illegal => Err(args[i]),
        }
    }
}

fn part(cs: &Vec<char>, a: usize, b: usize) -> (r: String)
    requires
        a <= b <= cs@.len(),
    ensures
        r@ == cs@.subrange(a as int, b as int),
{
    let mut out = String::new();
    let mut i: usize = a;
    while i < b
        invariant
            a <= i <= b <= cs@.len(),
            out@ == cs@.subrange(a as int, i as int),
        decreases b - i,
    {
        out.push(cs[i]);
        i += 1;
        assert(out@ =~= cs@.subrange(a as int, i as int));
    }
    out
}

fn listed(v: &Vec<String>, s: &str) -> (r: bool)
    ensures
        r == views(v@).contains(s@),
{
    let mut i: usize = 0;
    while i < v.len()
        invariant
            i <= v@.len(),
            forall|k: int| 0 <= k < i ==> (#[trigger] v@[k])@ != s@,
        decreases v.len() - i,
    {
        if same(v[i].as_str(), s) {
            assert(views(v@)[i as int] == s@);
            return true;
        }
        i += 1;
    }
    proof {
        if views(v@).contains(s@) {
            let k = choose|k: int| 0 <= k < views(v@).len() && views(v@)[k] == s@;
            assert(v@[k]@ == s@);
        }
    }
    false
}

/// One argument, taken apart.
enum Read {
    Verbosity,
    Given(String, String),
    Valued(String),
    Plain(String),
    Positional,
    Illegal,
}

impl Read {
    spec fn view(&self) -> Arg {
        match self {
            Read::Verbosity => Arg::Verbosity,
            Read::Given(k, v) => Arg::Given(k@, v@),
            Read::Valued(k) => Arg::Valued(k@),
            Read::Plain(k) => Arg::Plain(k@),
            Read::Positional => Arg::Positional,
            Read::Illegal => Arg::Illegal,
        }
    }
}

fn read_arg(a: &String, valued: &Vec<String>) -> (r: Read)
    ensures
        r.view() == arg_of(a@, views(valued@)),
{
    if same(a.as_str(), "-v") || same(a.as_str(), "--verbose") {
        return Read::Verbosity;
    }
    let cs = characters(a.as_str());
    let n: usize = cs.len();
    if n >= 2 && cs[0] == '-' && cs[1] == '-' {
        let ghost rest = a@.skip(2);
        let mut k: usize = 2;
        while k < n && cs[k] != '='
            invariant
                2 <= k <= n,
                n == cs@.len(),
                cs@ == a@,
                rest == a@.skip(2),
                equals_at(rest, k - 2) == equals_at(rest, 0),
            decreases n - k,
        {
            assert(rest[k - 2] == cs@[k as int]);
            k += 1;
        }
        if k < n {
            assert(rest[k - 2] == cs@[k as int]);
            let key = part(&cs, 2, k);
            let value = part(&cs, k + 1, n);
            assert(key@ =~= rest.take(k - 2));
            assert(value@ =~= rest.skip(k - 2 + 1));
            if is_common(key.as_str()) || listed(valued, key.as_str()) {
                return Read::Given(key, value);
            }
            return Read::Illegal;
        }
        let name = part(&cs, 2, n);
        assert(name@ =~= rest);
        if listed(valued, name.as_str()) {
            return Read::Valued(name);
        }
        if is_common(name.as_str()) {
            return Read::Plain(name);
        }
        return Read::Illegal;
    }
    if n >= 1 && cs[0] == '-' {
        let name = part(&cs, 1, n);
        assert(name@ =~= a@.skip(1));
        let s = name.as_str();
        if same(s, "d") || same(s, "l") || same(s, "s") || same(s, "io") || same(s, "id") || same(s, "ed") || same(
            s,
            "md",
        ) {
            return Read::Valued(name);
        }
        if same(s, "i") || same(s, "ei") || same(s, "ea") || same(s, "ice") {
            return Read::Plain(name);
        }
        return Read::Illegal;
    }
    Read::Positional
}

/// Reads the arguments. The options `valued` take a value. The error is the message about the
/// first option that is not known.
pub fn parse_args(args: &Vec<String>, valued: &Vec<String>) -> (r: Result<Args, String>)
    ensures
        match r {
            Ok(a) => scanned(views(args@), 0, views(valued@), Seq::empty(), Seq::empty()) == Ok::<
                (Seq<Seq<char>>, Seq<Opt>),
                Seq<char>,
            >((views(a.positional@), option_views(a.options@))),
            Err(m) => match scanned(views(args@), 0, views(valued@), Seq::empty(), Seq::empty()) {
                Err(s) => m@ == "Illegal option `"@ + s + "'. Try `--help' for more information."@,
                Ok(_) => false,
            },
        },
{
    let ghost av = views(args@);
    let ghost vv = views(valued@);
    let mut positional: Vec<String> = Vec::new();
    let mut options: Vec<(String, Option<String>)> = Vec::new();
    let mut i: usize = 0;
    proof {
        assert(views(positional@) =~= Seq::empty());
        assert(option_views(options@) =~= Seq::empty());
    }
    while i < args.len()
        invariant
            i <= args@.len(),
            av == views(args@),
            vv == views(valued@),
            scanned(av, i as int, vv, views(positional@), option_views(options@)) == scanned(
                av,
                0,
                vv,
                Seq::empty(),
                Seq::empty(),
            ),
        decreases args.len() - i,
    {
        let ghost p0 = views(positional@);
        let ghost o0 = option_views(options@);
        assert(av[i as int] == args@[i as int]@);
        let read = read_arg(&args[i], valued);
        let more = i < args.len() - 1;
        if more {
            assert(av[i + 1] == args@[i + 1]@);
        }
        match read {
            Read::Verbosity => {
                i = if more {
                    i + 2
                } else {
                    i + 1
                };
            },
            Read::Given(k, v) => {
                let ghost e = (k@, Some(v@));
                options.push((k, Some(v)));
                assert(option_views(options@) =~= o0.push(e));
                i += 1;
            },
            Read::Valued(k) => {
                let ghost kv = k@;
                if more {
                    let v = args[i + 1].clone();
                    let ghost e = (kv, Some(v@));
                    options.push((k, Some(v)));
                    assert(option_views(options@) =~= o0.push(e));
                    i += 2;
                } else {
                    options.push((k, None));
                    assert(option_views(options@) =~= o0.push((kv, None::<Seq<char>>)));
                    i += 1;
                }
            },
            Read::Plain(k) => {
                let ghost kv = k@;
                options.push((k, None));
                assert(option_views(options@) =~= o0.push((kv, None::<Seq<char>>)));
                i += 1;
            },
            Read::Positional => {
                let v = args[i].clone();
                positional.push(v);
                assert(views(positional@) =~= p0.push(av[i as int]));
                i += 1;
            },
            Read::Illegal => {
                let mut m = own("Illegal option `");
                put(&mut m, args[i].as_str());
                put(&mut m, "'. Try `--help' for more information.");
                return Err(m);
            },
        }
    }
    Ok(Args { positional, options })
}

/// The place of the last option of the name.
pub open spec fn last_option(v: Seq<Opt>, name: Seq<char>, n: int) -> int
    decreases n,
{
    if n <= 0 {
        -1
    } else if v[n - 1].0 == name {
        n - 1
    } else {
        last_option(v, name, n - 1)
    }
}

impl Args {
    /// The value of the last option of the name.
    pub fn opt(&self, name: &str) -> (r: Option<&str>)
        ensures
            ({
                let v = option_views(self.options@);
                let k = last_option(v, name@, v.len() as int);
                match r {
                    Some(s) => k >= 0 && v[k].1 == Some(s@),
                    None => k < 0 || v[k].1 is None,
                }
            }),
    {
        let ghost v = option_views(self.options@);
        let mut i: usize = self.options.len();
        while i > 0
            invariant
                i <= self.options@.len(),
                v == option_views(self.options@),
                last_option(v, name@, i as int) == last_option(v, name@, v.len() as int),
            decreases i,
        {
            assert(v[i - 1] == (self.options@[i - 1].0@, opt_text(self.options@[i - 1].1)));
            if same(self.options[i - 1].0.as_str(), name) {
                return match &self.options[i - 1].1 {
                    Some(s) => Some(s.as_str()),
                    None => None,
                };
            }
            i -= 1;
        }
        None
    }

    /// Whether the option is there.
    pub fn flag(&self, name: &str) -> (r: bool)
        ensures
            r == exists|i: int| 0 <= i < self.options@.len() && (#[trigger] self.options@[i]).0@ == name@,
    {
        let mut i: usize = 0;
        while i < self.options.len()
            invariant
                i <= self.options@.len(),
                forall|k: int| 0 <= k < i ==> (#[trigger] self.options@[k]).0@ != name@,
            decreases self.options.len() - i,
        {
            if same(self.options[i].0.as_str(), name) {
                return true;
            }
            i += 1;
        }
        false
    }
}

} // verus!
