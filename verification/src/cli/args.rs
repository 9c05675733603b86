//! Command-line arguments of `flash run`, `flash dev` and `flash docs`.

use vstd::prelude::*;
use vstd::string::{StrSliceExecFns, StringExecFns};
use crate::bytes::str_eq;

verus! {

/// How `flash run` renders.
#[derive(Clone, Copy, Debug, PartialEq, Eq, Structural)]
pub enum RunMode {
    Mock,
    Native,
    Ios,
    Android,
}

pub open spec fn arg_views(args: Seq<String>) -> Seq<Seq<char>> {
    args.map_values(|s: String| s@)
}

pub open spec fn starts_dash(s: Seq<char>) -> bool {
    s.len() > 0 && s[0] == '-'
}

/// The first argument from `i` on that is not an option.
pub open spec fn first_plain(args: Seq<Seq<char>>, i: int) -> Option<Seq<char>>
    decreases args.len() - i,
{
    if i < 0 || i >= args.len() {
        None
    } else if args[i] != "--native"@ && !starts_dash(args[i]) {
        Some(args[i])
    } else {
        first_plain(args, i + 1)
    }
}

/// `flash dev`'s arguments after the command: the first plain argument is
/// the file, and `--native` anywhere asks for the native session.
pub open spec fn dev_args(args: Seq<Seq<char>>) -> (Option<Seq<char>>, bool) {
    (first_plain(args, 2), exists|k: int| 2 <= k < args.len() && args[k] == "--native"@)
}

/// `flash run`'s arguments from `i` on, given the file and mode so far.
pub open spec fn run_args_from(args: Seq<Seq<char>>, i: int, path: Seq<char>, mode: RunMode) -> (Seq<char>, RunMode)
    decreases args.len() - i,
{
    if i < 0 || i >= args.len() {
        (path, mode)
    } else {
        let a = args[i];
        if a == "--native"@ {
            run_args_from(args, i + 1, path, RunMode::Native)
        } else if a == "ios"@ && path.len() == 0 && i + 1 < args.len() {
            run_args_from(args, i + 2, args[i + 1], RunMode::Ios)
        } else if a == "android"@ && path.len() == 0 && i + 1 < args.len() {
            run_args_from(args, i + 2, args[i + 1], RunMode::Android)
        } else if !starts_dash(a) && path.len() == 0 {
            run_args_from(args, i + 1, a, mode)
        } else {
            run_args_from(args, i + 1, path, mode)
        }
    }
}

fn starts_with_dash(s: &str) -> (r: bool)
    ensures
        r == starts_dash(s@),
{
    s.unicode_len() > 0 && s.get_char(0) == '-'
}

/// The file and the mode `flash run` was given; the file is empty where none
/// was.
pub fn parse_run_args(args: &[String]) -> (r: (String, RunMode))
    ensures
        (r.0@, r.1) == run_args_from(arg_views(args@), 2, Seq::empty(), RunMode::Mock),
{
    let ghost av = arg_views(args@);
    let mut path = String::new();
    let mut mode = RunMode::Mock;
    let mut i: usize = 2;
    while i < args.len()
        invariant
            av == arg_views(args@),
            av.len() == args@.len(),
            i >= 2,
            run_args_from(av, 2, Seq::empty(), RunMode::Mock) == run_args_from(av, i as int, path@, mode),
        decreases args@.len() - i,
    {
        let a = args[i].as_str();
        assert(a@ == av[i as int]);
        if str_eq(a, "--native") {
            mode = RunMode::Native;
        } else if str_eq(a, "ios") && path.unicode_len() == 0 && i + 1 < args.len() {
            mode = RunMode::Ios;
            path = args[i + 1].clone();
            assert(path@ == av[i + 1]);
            i = i + 1;
        } else if str_eq(a, "android") && path.unicode_len() == 0 && i + 1 < args.len() {
            mode = RunMode::Android;
            path = args[i + 1].clone();
            assert(path@ == av[i + 1]);
            i = i + 1;
        } else if !starts_with_dash(a) && path.unicode_len() == 0 {
            path = String::from_str(a);
        }
        i = i + 1;
    }
    (path, mode)
}

/// The file and the native flag `flash dev` was given.
pub fn parse_dev_args(args: &[String]) -> (r: (Option<String>, bool))
    ensures
        match r.0 {
            Some(p) => dev_args(arg_views(args@)).0 == Some(p@),
            None => dev_args(arg_views(args@)).0 is None,
        },
        r.1 == dev_args(arg_views(args@)).1,
{
    let ghost av = arg_views(args@);
    let mut path: Option<String> = None;
    let mut native = false;
    let mut i: usize = 2;
    while i < args.len()
        invariant
            av == arg_views(args@),
            av.len() == args@.len(),
            i >= 2,
            args@.len() >= 2 ==> i <= args@.len(),
            args@.len() < 2 ==> i == 2,
            match path {
                Some(p) => first_plain(av, 2) == Some(p@),
                None => first_plain(av, 2) == first_plain(av, i as int),
            },
            native == (exists|k: int| 2 <= k < i && av[k] == "--native"@),
        decreases args@.len() - i,
    {
        let a = args[i].as_str();
        assert(a@ == av[i as int]);
        let ghost was = native;
        if str_eq(a, "--native") {
            native = true;
        } else if !starts_with_dash(a) && path.is_none() {
            path = Some(args[i].clone());
        }
        proof {
            if av[i as int] == "--native"@ {
                assert(2 <= i < i + 1 && av[i as int] == "--native"@);
            } else if !was {
                assert forall|k: int| 2 <= k < i + 1 implies av[k] != "--native"@ by {
                    if k < i {
                        if av[k] == "--native"@ {
                            assert(exists|k2: int| 2 <= k2 < i && av[k2] == "--native"@);
                        }
                    }
                }
            } else {
                let w = choose|k: int| 2 <= k < i && av[k] == "--native"@;
                assert(2 <= w < i + 1 && av[w] == "--native"@);
            }
        }
        i = i + 1;
    }
    proof {
        if args@.len() >= 2 {
            assert(first_plain(av, i as int) is None);
        } else {
            assert(first_plain(av, 2) is None);
        }
        if native {
            let w = choose|k: int| 2 <= k < i && av[k] == "--native"@;
            assert(2 <= w < av.len() && av[w] == "--native"@);
        } else {
            assert forall|k: int| 2 <= k < av.len() implies av[k] != "--native"@ by {
                if av[k] == "--native"@ {
                    assert(2 <= k < i && av[k] == "--native"@);
                }
            }
        }
    }
    (path, native)
}

/// The value of an unsigned decimal: digits most significant first.
pub open spec fn digits_value(d: Seq<char>) -> int
    decreases d.len(),
{
    if d.len() == 0 {
        0
    } else {
        digits_value(d.drop_last()) * 10 + (d.last() as int - '0' as int)
    }
}

pub open spec fn all_digits(d: Seq<char>) -> bool {
    forall|i: int| 0 <= i < d.len() ==> '0' <= #[trigger] d[i] <= '9'
}

/// What `str::parse::<u16>` gives: an optional `+`, then one or more ASCII
/// digits whose value fits 16 bits.
pub open spec fn sign_stripped(s: Seq<char>) -> Seq<char> {
    if s.len() > 0 && s[0] == '+' {
        s.drop_first()
    } else {
        s
    }
}

pub open spec fn u16_text(s: Seq<char>) -> Option<u16> {
    let d = sign_stripped(s);
    if d.len() > 0 && all_digits(d) && digits_value(d) <= 65535 {
        Some(digits_value(d) as u16)
    } else {
        None
    }
}

proof fn lemma_digits_value_nonneg(d: Seq<char>)
    requires
        all_digits(d),
    ensures
        digits_value(d) >= 0,
        d.len() > 0 ==> digits_value(d) >= digits_value(d.drop_last()),
    decreases d.len(),
{
    if d.len() > 0 {
        assert(all_digits(d.drop_last()));
        lemma_digits_value_nonneg(d.drop_last());
        assert('0' <= d[d.len() - 1] <= '9');
    }
}

/// Parses a port number as `str::parse::<u16>` does.
pub fn parse_u16(s: &str) -> (r: Option<u16>)
    ensures
        r == u16_text(s@),
{
    let n = s.unicode_len();
    let mut i: usize = 0;
    if n > 0 && s.get_char(0) == '+' {
        i = 1;
    }
    let ghost d = sign_stripped(s@);
    assert(d =~= s@.subrange(i as int, n as int));
    if i >= n {
        return None;
    }
    let mut v: u32 = 0;
    let start = i;
    while i < n
        invariant
            n == s@.len(),
            start <= i <= n,
            d == s@.subrange(start as int, n as int),
            d == sign_stripped(s@),
            d.len() > 0,
            all_digits(s@.subrange(start as int, i as int)),
            v as int == digits_value(s@.subrange(start as int, i as int)),
            v <= 65535,
        decreases n - i,
    {
        let c = s.get_char(i);
        let ghost pre = s@.subrange(start as int, i as int);
        let ghost next = s@.subrange(start as int, i + 1);
        assert(next =~= pre.push(c));
        if !('0' <= c && c <= '9') {
            assert(!all_digits(d)) by {
                assert(d[i - start] == c);
            }
            return None;
        }
        let digit = (c as u32) - ('0' as u32);
        proof {
            lemma_digits_step(pre, c);
        }
        if v > 6553 || (v == 6553 && digit > 5) {
            proof {
                assert(d.subrange(0, (i + 1 - start) as int) =~= next);
                assert(digits_value(next) == v * 10 + digit);
                lemma_digits_prefix_bound(d, (i + 1 - start) as int);
            }
            return None;
        }
        v = v * 10 + digit;
        i = i + 1;
    }
    assert(s@.subrange(start as int, n as int) == d);
    Some(v as u16)
}

proof fn lemma_digits_step(pre: Seq<char>, c: char)
    requires
        all_digits(pre),
        '0' <= c <= '9',
    ensures
        all_digits(pre.push(c)),
        digits_value(pre.push(c)) == digits_value(pre) * 10 + (c as int - '0' as int),
{
    let next = pre.push(c);
    assert(next.drop_last() =~= pre);
    assert forall|k: int| 0 <= k < next.len() implies '0' <= #[trigger] next[k] <= '9' by {
        if k < pre.len() {
            assert(next[k] == pre[k]);
        }
    }
}

/// A longer run of digits is worth at least as much as its prefix.
proof fn lemma_digits_prefix_bound(d: Seq<char>, k: int)
    requires
        0 < k <= d.len(),
        all_digits(d.subrange(0, k)),
        digits_value(d.subrange(0, k)) > 65535,
    ensures
        !(all_digits(d) && digits_value(d) <= 65535),
    decreases d.len() - k,
{
    if all_digits(d) && k < d.len() {
        let p = d.subrange(0, k + 1);
        assert(p.drop_last() =~= d.subrange(0, k));
        assert(all_digits(p)) by {
            assert forall|i: int| 0 <= i < p.len() implies '0' <= #[trigger] p[i] <= '9' by {
                assert(p[i] == d[i]);
            }
        }
        assert('0' <= p[k] <= '9');
        lemma_digits_prefix_bound(d, k + 1);
    } else if k == d.len() {
        assert(d.subrange(0, k) =~= d);
    }
}

/// The port given by `--port N`, `-p N` or `--port=N`, at the first such
/// option; `None` where there is none or its value is not a port.
pub open spec fn port_flag_from(args: Seq<Seq<char>>, i: int) -> Option<u16>
    decreases args.len() - i,
{
    if i < 0 || i >= args.len() {
        None
    } else if args[i] == "--port"@ || args[i] == "-p"@ {
        if i + 1 < args.len() {
            u16_text(args[i + 1])
        } else {
            None
        }
    } else if is_prefix_of("--port="@, args[i]) {
        u16_text(args[i].subrange(7, args[i].len() as int))
    } else {
        port_flag_from(args, i + 1)
    }
}

pub open spec fn is_prefix_of(p: Seq<char>, s: Seq<char>) -> bool {
    p.len() <= s.len() && s.subrange(0, p.len() as int) == p
}

fn suffix_after_port(s: &str) -> (r: Option<String>)
    ensures
        match r {
            Some(t) => is_prefix_of("--port="@, s@) && t@ == s@.subrange(7, s@.len() as int),
            None => !is_prefix_of("--port="@, s@),
        },
{
    proof {
        reveal_strlit("--port=");
    }
    let n = s.unicode_len();
    if n < 7 {
        return None;
    }
    let p = "--port=";
    let mut i: usize = 0;
    while i < 7
        invariant
            n == s@.len(),
            n >= 7,
            p@ == "--port="@,
            p@.len() == 7,
            i <= 7,
            forall|k: int| 0 <= k < i ==> s@[k] == p@[k],
        decreases 7 - i,
    {
        if s.get_char(i) != p.get_char(i) {
            assert(s@.subrange(0, 7)[i as int] != p@[i as int]);
            return None;
        }
        i = i + 1;
    }
    assert(s@.subrange(0, 7) =~= p@);
    let mut t = String::new();
    let mut j: usize = 7;
    while j < n
        invariant
            n == s@.len(),
            7 <= j <= n,
            t@ == s@.subrange(7, j as int),
        decreases n - j,
    {
        t.push(s.get_char(j));
        j = j + 1;
        assert(t@ =~= s@.subrange(7, j as int));
    }
    Some(t)
}

/// The port `flash docs` was asked to serve on.
pub fn parse_port_flag(args: &[String]) -> (r: Option<u16>)
    ensures
        r == port_flag_from(arg_views(args@), 0),
{
    let ghost av = arg_views(args@);
    let mut i: usize = 0;
    while i < args.len()
        invariant
            av == arg_views(args@),
            av.len() == args@.len(),
            i <= args@.len(),
            port_flag_from(av, 0) == port_flag_from(av, i as int),
        decreases args@.len() - i,
    {
        let a = args[i].as_str();
        assert(a@ == av[i as int]);
        if str_eq(a, "--port") || str_eq(a, "-p") {
            if i + 1 < args.len() {
                assert(args[i + 1 as int]@ == av[i + 1]);
                return parse_u16(args[i + 1].as_str());
            }
            return None;
        }
        match suffix_after_port(a) {
            Some(rest) => {
                return parse_u16(rest.as_str());
            },
            None => {},
        }
        i = i + 1;
    }
    None
}

} // verus!
